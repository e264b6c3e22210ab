[package]
name = "kernel"
version = "0.1.0"
edition = "2021"
publish = false

[dependencies]
arrayvec = "0.7"
