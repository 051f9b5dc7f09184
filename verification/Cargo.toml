[package]
name = "rustforge"
version = "0.1.0"
edition = "2021"
publish = false

[dependencies]
glam = "0.29"
indexmap = "2"
serde = { version = "1", features = ["derive"] }
serde_json = "1"
ron = "0.8"
thiserror = "1"
specs = "0.20"
specs-derive = "0.4"
rapier3d = "0.18"
fontdue = "0.9"
image = { version = "0.25", default-features = false, features = ["png", "jpeg"] }
bytemuck = { version = "1", features = ["derive"] }
log = "0.4"
env_logger = "0.11"
pollster = "0.3"
wgpu = "22"
winit = "0.30"
vulkano = "0.34"
