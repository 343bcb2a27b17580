[package]
name = "tiny_renderer"
version = "0.1.0"
edition = "2021"
publish = false

[dependencies]
image = { version = "0.23", default-features = false, features = ["jpeg"] }
rand = "0.7"
