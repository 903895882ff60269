[package]
name = "rsyncp"
version = "0.1.0"
edition = "2021"
publish = false

[dependencies]
unicode-width = "0.2"
