[package]
name = "fresh_buffer"
version = "0.1.0"
edition = "2021"
publish = false

[dependencies]
regex = "*"
muda = "*"
serde_json = "*"
