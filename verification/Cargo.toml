[package]
name = "game_engine_rs"
version = "0.1.0"
edition = "2021"
publish = false

[dependencies]
ab_glyph = "*"
anyhow = "*"
bytemuck = { version = "*", features = ["derive"] }
cgmath = "*"
pollster = "*"
tobj = "*"
wgpu = "*"
winit = "*"
