[package]
name = "spenser_rs"
version = "0.1.0"
edition = "2021"
publish = false

[dependencies]
rand = "0.8"
hashbrown = "*"
clap = "4"
serde = { version = "1", features = ["derive"] }
serde_json = "1"
csv = "1"
anyhow = "1"
log = "0.4"
env_logger = "*"
