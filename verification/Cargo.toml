[package]
name = "multiplayer"
version = "0.1.0"
edition = "2021"
publish = false

[dependencies]
bevy = { version = "=0.17.3", default-features = false, features = ["std", "bevy_log"] }
bevy_renet = "=3.0.0"
wincode = { version = "=0.6.3", features = ["derive"] }
