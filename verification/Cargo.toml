[package]
name = "hdf5"
version = "0.1.0"
edition = "2021"
publish = false

[dependencies]
flate2 = "1"
lz4_flex = "0.11"
snap = "1"
ruzstd = "0.7"
memmap2 = "0.9"
ndarray = "0.15"
parking_lot = "0.12"
libc = "0.2"
half = "2"
bitflags = "2"
