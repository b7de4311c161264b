[package]
name = "colorful_panel"
version = "0.1.0"
edition = "2021"
publish = false

[dependencies]
rand = "0.8"
tetra = { version = "*", default-features = false }
