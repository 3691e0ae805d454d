[package]
name = "allocators"
version = "0.1.0"
edition = "2021"
publish = false

[dependencies]
spin = "0.9"
smallvec = "1"
cache-padded = "1"
threadpool = "1"
