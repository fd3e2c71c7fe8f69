[package]
name = "axio"
version = "0.1.0"
edition = "2021"
publish = false

[dependencies]
axerrno = "*"
bitflags = "2"
spin = "*"
