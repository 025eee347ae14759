[package]
name = "lz4_codec"
version = "0.1.0"
edition = "2021"
publish = false

[dependencies]
lz4_flex = { version = "*", features = ["frame"] }
twox-hash = "*"
