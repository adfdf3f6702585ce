[package]
name = "cdb"
version = "0.1.0"
edition = "2021"

[dependencies]
mmap-fixed = "*"
