[package]
name = "calltree"
version = "0.1.0"
edition = "2021"
publish = false

[dependencies]
serde = { version = "*", features = ["derive"] }
serde_json = "*"
chrono = "*"
log = "*"
time = "*"
env_logger = "*"
lazy_static = "*"
