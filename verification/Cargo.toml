[package]
name = "r3malloc"
version = "0.1.0"
edition = "2021"
publish = false

[dependencies]
atomic = "=0.5.3"
libc = "=0.2.191"
likely_stable = "=0.1.3"

[dev-dependencies]
c2rust-bitfields = "=0.22.1"
