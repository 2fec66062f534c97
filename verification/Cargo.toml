[package]
name = "gate_build"
version = "0.1.0"
edition = "2021"
publish = false

[dependencies]
byteorder = "*"
image = { version = "*", default-features = false, features = ["png"] }
