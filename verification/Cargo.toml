[package]
name = "bevy_replicon_snap"
version = "0.1.0"
edition = "2021"
publish = false

[dependencies]
bevy = { version = "=0.16.1", default-features = false, features = ["serialize"] }
bevy_replicon = { version = "=0.33.0", default-features = false, features = ["client", "server"] }
serde = { version = "=1.0.229", features = ["derive"] }
