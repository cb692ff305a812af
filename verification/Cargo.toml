[package]
name = "nfd"
version = "0.1.0"
edition = "2021"
publish = false

[dependencies]
nfd-sys = "*"
libc = "*"
