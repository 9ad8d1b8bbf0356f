[package]
name = "lgenerator"
version = "0.1.0"
edition = "2021"
publish = false

[dependencies]
serde_json = "1"
glam = "0.25"
rand = "0.8"
bytemuck = { version = "1", features = ["derive"] }
pollster = "0.3"
