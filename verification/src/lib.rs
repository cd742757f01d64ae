//! Finds the base address at which a flat 32-bit binary image is meant to be loaded.
//!
//! An image that holds strings and pointers to them gives its base address away: loaded
//! there, many of its strings lie where its pointers point. The search tries every multiple
//! of an offset and counts, for each, how many strings a pointer hits.

pub mod bits;
pub mod config;
pub mod cpu;
pub mod engine;
pub mod heap;
pub mod interval;
pub mod job;
pub mod opencl;
pub mod parse;
pub mod pointers;
pub mod report;
pub mod run;
pub mod scan;
pub mod strings;
pub mod text;
pub mod value_set;

pub use crate::config::{Arguments, Config};
pub use crate::heap::MatchHeap;
pub use crate::interval::Interval;
pub use crate::run::run;
pub use crate::strings::SearchError;
