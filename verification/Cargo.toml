[package]
name = "based64"
version = "0.1.0"
edition = "2021"
publish = false

[dev-dependencies]
getrandom = "0.2"
