[package]
name = "simd_json"
version = "0.1.0"
edition = "2021"
publish = false

[dependencies]
halfbrown = "*"
serde = "1"
