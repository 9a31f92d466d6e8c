[package]
name = "eternal_game"
version = "0.1.0"
edition = "2021"
publish = false

[dependencies]
bevy = { version = "0.18", default-features = false, features = ["std", "bevy_window", "bevy_render", "bevy_sprite", "bevy_text"] }
