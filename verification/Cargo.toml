[package]
name = "read_json"
version = "0.1.0"
edition = "2021"
publish = false

[dependencies]
chrono = "*"
csv = "*"
log = "*"
log4rs = "*"
serde = { version = "*", features = ["derive"] }
serde_json = "*"
