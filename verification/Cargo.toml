[package]
name = "crapmap"
version = "0.1.0"
edition = "2021"
publish = false

[dependencies]
byteorder = "1"
pixels = "0.12"
winit = "0.28"
