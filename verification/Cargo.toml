[package]
name = "spatial_index"
version = "0.1.0"
edition = "2021"
publish = false

[dependencies]
ambient_api = "=0.2.1"
slab = "=0.4.12"

[dev-dependencies]
parry2d = "=0.13.8"
