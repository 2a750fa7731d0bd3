[package]
name = "blurhash"
version = "0.1.0"
edition = "2021"
publish = false

[dependencies]
fast-srgb8 = "1"
image = { version = "0.24", default-features = false }
thiserror = "1"
