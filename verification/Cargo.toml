[package]
name = "tilemap_decode"
version = "0.1.0"
edition = "2021"
publish = false

[dependencies]
base64 = "*"
xml-rs = "*"
flate2 = "*"
zstd = "*"
