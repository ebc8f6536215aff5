[package]
name = "kleestor"
version = "0.1.0"
edition = "2021"
publish = false

[dependencies]
fasthash = "0.4"
lru = "0.7"
memmap = "0.7"
