[package]
name = "bevy_stage"
version = "0.1.0"
edition = "2021"
publish = false
rust-version = "1.95"

[dependencies]
serde = { version = "=1.0.229", features = ["derive"] }
serde_json = "=1.0.154"
thiserror = "=2.0.21"
ron = "=0.12.3"
gltf = "=1.4.1"
bevy = { version = "=0.19.1", default-features = false, features = ["bevy_gltf", "bevy_log", "bevy_camera", "bevy_mesh"] }
