[package]
name = "simplecs"
version = "0.1.0"
edition = "2021"
publish = false

[dependencies]
anymap = "0.12"
downcast-rs = "1"
failure = "0.1"
