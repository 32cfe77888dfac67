[package]
name = "bevy_modal"
version = "0.3.1"
edition = "2021"
publish = false

[dependencies]
bevy = { version = "=0.19.1", default-features = false, features = ["std", "bevy_ui", "bevy_picking"] }
