[package]
name = "pexeso"
version = "0.1.0"
edition = "2021"
publish = false

[dependencies]
rand_chacha = "*"
rand_core = "*"
