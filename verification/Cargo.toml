[package]
name = "particlinator"
version = "0.1.0"
edition = "2021"
publish = false

[dependencies]
bevy_math = { version = "0.15", default-features = false }
bytemuck = { version = "1", features = ["derive"] }
egui = "0.31"
egui-wgpu = "0.31"
egui-winit = { version = "0.31", default-features = false, features = ["wayland", "x11"] }
winit = "0.30"
image = { version = "0.25", default-features = false, features = ["png", "jpeg"] }
rfd = { version = "0.15", default-features = false, features = ["xdg-portal", "tokio"] }
pollster = "0.4"
env_logger = "0.11"
log = "0.4"
