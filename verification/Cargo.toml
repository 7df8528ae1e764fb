[package]
name = "voxel_sim"
version = "0.1.0"
edition = "2021"
publish = false

[dependencies]
bytemuck = { version = "1", features = ["derive"] }
crossbeam-channel = "0.5"
env_logger = "0.11"
fastnoise-lite = "1"
glam = "0.30"
log = "0.4"
pollster = "0.4"
rand = "0.9"
wgpu = "24"
winit = "0.30"
