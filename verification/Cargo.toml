[package]
name = "rustreexo"
version = "0.1.0"
edition = "2021"
publish = false

[dependencies]
bitcoin = "0.32"
sha2 = "0.10"
