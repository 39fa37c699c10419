[package]
name = "usbtop_ng"
version = "0.1.0"
edition = "2021"
publish = false

[dependencies]
anyhow = "1"
crossterm = "*"
env_logger = "*"
libc = "0.2"
log = "0.4"
serde = { version = "1", features = ["derive"] }
serde_json = "1"
signal-hook = "0.3"
toml = "0.8"
