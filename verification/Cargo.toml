[package]
name = "midi_bounce"
version = "0.1.0"
edition = "2021"
publish = false

[dependencies]
midly = "0.5"
rand = "0.9"
glam = "*"
bytemuck = { version = "1", features = ["derive"] }
pollster = "0.4"
rfd = "*"
rodio = "*"
wgpu = "*"
winit = "0.30"
