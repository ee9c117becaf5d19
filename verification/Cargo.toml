[package]
name = "amigo"
version = "0.3.0"
edition = "2021"
publish = false

[dev-dependencies]
regex = "1"
