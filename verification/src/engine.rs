//! Which engine searches: the compute device where the settings ask for it, the CPU where they
//! do not and where the device has failed.

use vstd::multiset::Multiset;
use vstd::prelude::*;

use crate::config::Config;
use crate::heap::MatchHeap;

verus! {

/// What has happened in a search.
pub enum Event {
    /// The strings and the pointers of the image are located.
    Located,
    /// The device has searched.
    DeviceFound(MatchHeap),
    /// The device could not search.
    DeviceFailed,
    /// The CPU has searched.
    CpuFound(MatchHeap),
}

/// What a search does next.
pub enum Action {
    SearchOnDevice,
    SearchOnCpu,
    /// The matches are final.
    Report(MatchHeap),
}

/// What follows on an event. The device is tried only where the settings ask for it, and the
/// CPU takes over where the device fails.
pub fn next_action(config: &Config, event: Event) -> (r: Action)
    ensures
        match event {
            Event::Located => r == if config.opencl {
                Action::SearchOnDevice
            } else {
                Action::SearchOnCpu
            },
            Event::DeviceFailed => r == Action::SearchOnCpu,
            Event::DeviceFound(heap) => r == Action::Report(heap),
            Event::CpuFound(heap) => r == Action::Report(heap),
        },
{
    match event {
        Event::Located => if config.opencl {
            Action::SearchOnDevice
        } else {
            Action::SearchOnCpu
        },
        Event::DeviceFailed => Action::SearchOnCpu,
        Event::DeviceFound(heap) => Action::Report(heap),
        Event::CpuFound(heap) => Action::Report(heap),
    }
}

/// The matches that a device handed back, if it did.
pub open spec fn outcome(device: Option<MatchHeap>) -> Option<Multiset<(usize, u32)>> {
    match device {
        Some(heap) => Some(heap@),
        None => None,
    }
}

/// The matches that are reported: those of the device where the settings ask for it and it
/// found them, else those of the CPU.
pub open spec fn chosen(
    opencl: bool,
    device: Option<Multiset<(usize, u32)>>,
    cpu: Multiset<(usize, u32)>,
) -> Multiset<(usize, u32)> {
    if opencl && device is Some {
        device->Some_0
    } else {
        cpu
    }
}

/// What a device found counts exactly where the settings ask for the device, and what the CPU
/// found counts in every other case.
pub proof fn device_counts_where_it_is_asked_for(
    found: Multiset<(usize, u32)>,
    cpu: Multiset<(usize, u32)>,
    heap: MatchHeap,
)
    ensures
        chosen(true, Some(found), cpu) == found,
        chosen(true, None, cpu) == cpu,
        chosen(false, Some(found), cpu) == cpu,
        chosen(false, None, cpu) == cpu,
        outcome(Some(heap)) == Some(heap@),
        outcome(None) is None,
{
}

} // verus!
