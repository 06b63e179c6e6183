[package]
name = "marigold"
version = "0.1.0"
edition = "2021"
publish = false

[dependencies]
glam = "0.30"
log = "0.4"
env_logger = "0.11"
rand = "0.9"
serde = { version = "1", features = ["derive"] }
serde_json = "1"
bytemuck = { version = "1", features = ["derive"] }
