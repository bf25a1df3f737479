[package]
name = "zeronet_tracker"
version = "0.1.0"
edition = "2021"
publish = false

[dependencies]
zeronet_protocol = "=0.1.10"
futures = "=0.3.34"
serde = "=1.0.229"
serde_bytes = "=0.11.19"
log = "=0.4.34"
pretty_env_logger = "=0.5.0"
clap = { version = "=3.2.25", features = ["env"] }
rusqlite = { version = "=0.40.2", features = ["bundled"] }
rusqlite_migration = "=2.6.0"
