[package]
name = "rbasefind"
version = "0.1.2"
edition = "2021"
publish = false

[dependencies]
byteorder = "1"
clap = "2"
fnv = "1"
num_cpus = "1"
ocl = "0.19"
pbr = "1"
regex = "1"
