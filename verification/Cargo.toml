[package]
name = "phone_encoding"
version = "0.1.0"
edition = "2021"
publish = false

[dependencies]
derive_builder = "*"
noisy_float = "*"
num-traits = "*"
