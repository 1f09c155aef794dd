[package]
name = "repofs"
version = "0.1.0"
edition = "2021"
publish = false

[dependencies]
anyhow = "*"
fuse_mt = "*"
libc = "*"
