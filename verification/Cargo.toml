[package]
name = "ostore"
version = "0.1.0"
edition = "2021"
publish = false

[dependencies]
libc = "*"
tempfile = "*"
