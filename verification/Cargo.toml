[package]
name = "astar_grid"
version = "0.1.0"
edition = "2021"
publish = false

[dependencies]
rand = "0.8"
bevy = { version = "0.17", default-features = false, features = ["bevy_window", "bevy_sprite_render", "bevy_ui_render", "bevy_text", "default_font"] }
