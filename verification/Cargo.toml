[package]
name = "kovacs"
version = "0.1.0"
edition = "2021"
publish = false

[dependencies]
base64 = "0.22"
regex = "1"
goblin = "*"
sha2 = "0.10"
hex = "0.4"
log = "0.4"
env_logger = "*"
dirs = "*"
serde = { version = "1", features = ["derive"] }
serde_json = "1"
