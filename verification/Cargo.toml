[package]
name = "uuid_remap"
version = "0.1.0"
edition = "2021"
publish = false

[dependencies]
anyhow = "=1.0.104"
clap = { version = "=4.6.7", features = ["derive"] }
colored = "=2.2.0"
env_logger = "=0.11.11"
flate2 = "=1.1.10"
indicatif = "=0.18.6"
indicatif-log-bridge = "=0.2.3"
log = "=0.4.34"
lz4 = "=1.28.1"
md5 = "=0.7.0"
once_cell = "=1.21.4"
rand = "=0.8.8"
reqwest = { version = "=0.12.28", features = ["blocking", "json"] }
serde = { version = "=1.0.229", features = ["derive"] }
serde_json = "=1.0.154"
uuid = { version = "=1.29.0", features = ["serde"] }

[dev-dependencies]
valence_nbt = { version = "=0.8.0", features = ["binary", "snbt"] }
