[package]
name = "rtin_terrain"
version = "0.1.0"
edition = "2021"
publish = false

[dependencies]
image = "0.24"
bevy = { version = "0.9", default-features = false, features = ["bevy_asset", "bevy_winit", "bevy_core_pipeline", "bevy_pbr", "bevy_render", "png", "x11"] }
bevy-inspector-egui = "0.17"
