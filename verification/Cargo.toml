[package]
name = "voxel_octree"
version = "0.1.0"
edition = "2021"
publish = false

[dependencies]
rand = "0.8"
bytemuck = { version = "1", features = ["derive"] }
cgmath = { version = "0.18", features = ["mint"] }
crevice = "0.8"
mint = "0.5"
pollster = "0.2"
env_logger = "0.9"
shaderc = "0.7"
wgpu = "0.12"
winit = "0.26"
