[package]
name = "temporal_pattern"
version = "0.1.0"
edition = "2021"
publish = false

[dependencies]
anyhow = "1"
bytemuck = { version = "1", features = ["derive"] }
clap = { version = "4", features = ["derive"] }
crossbeam-channel = "0.5"
image = { version = "0.25", default-features = false, features = ["png", "bmp"] }
oneshot = "0.1"
pollster = "0.3"
regex = "1"
wgpu = "0.20"
