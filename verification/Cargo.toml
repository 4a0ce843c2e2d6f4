[package]
name = "barnes_hut"
version = "0.1.0"
edition = "2021"
publish = false

[dependencies]
anyhow = "1"
bumpalo = { version = "=3.20.3", features = ["collections"] }
bumpalo-herd = "0.1"
bytemuck = { version = "1", features = ["derive"] }
cgmath = "0.18"
env_logger = "0.9"
glam = "0.20"
pollster = "0.2"
rand = "0.8"
rayon = "=1.12.0"
wgpu = "0.12"
winit = "0.26"
