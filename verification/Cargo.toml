[package]
name = "gate_render"
version = "0.1.0"
edition = "2021"
publish = false

[dependencies]
bevy = { version = "=0.19.1", default-features = false, features = ["bevy_asset", "bevy_core_pipeline", "bevy_image", "bevy_log", "bevy_render", "bevy_shader", "bevy_window"] }
glam = "=0.32.1"
ron = "=0.12.3"
serde = { version = "=1.0.229", features = ["derive"] }
wesl = "=0.3.2"
wgpu-profiler = "=0.27.0"
