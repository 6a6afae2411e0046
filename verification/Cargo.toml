[package]
name = "openmc"
version = "0.1.0"
edition = "2021"
publish = false

[dependencies]
bevy = { version = "0.18", default-features = false, features = ["std", "bevy_pbr", "bevy_ui", "bevy_text", "bevy_window", "bevy_state", "bevy_log"] }
noise = "=0.9.0"

[dev-dependencies]
fastrand = "2"
