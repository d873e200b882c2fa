[package]
name = "bess_economics"
version = "0.1.0"
edition = "2021"
publish = false

[dependencies]
chrono = { version = "=0.4.45", default-features = false, features = ["std"] }
anyhow = "=1.0.104"
clap = { version = "=4.6.7", features = ["derive"] }
serde = { version = "=1.0.229", features = ["derive"] }
serde_json = "=1.0.154"
log = "=0.4.34"
env_logger = "=0.11.11"
glob = "=0.3.4"
indicatif = "=0.17.11"
polars = { version = "0.38", features = ["lazy", "parquet", "is_in"] }
