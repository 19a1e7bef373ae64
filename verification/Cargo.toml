[package]
name = "ruskit_schema"
version = "0.1.0"
edition = "2021"
publish = false

[dependencies]
chrono = "0.4"
validator = "*"
serde = { version = "1", features = ["derive"] }
