[package]
name = "oak_runtime"
version = "0.1.0"
edition = "2021"
publish = false

[dependencies]
byteorder = "1"
itertools = "*"
lazy_static = "1"
libc = "0.2"
log = "0.4"
prost = "*"
simple_logger = "*"
