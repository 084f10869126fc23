[package]
name = "zwei_core"
version = "0.1.0"
edition = "2021"
publish = false

[dependencies]
serde = { version = "1", features = ["derive"] }
serde_json = "1"
once_cell = "1"
chrono = "0.4"
log = "0.4"
env_logger = "0.10"
