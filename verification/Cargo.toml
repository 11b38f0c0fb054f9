[package]
name = "road_topo"
version = "0.1.0"
edition = "2021"
publish = false

[dependencies]
rstar = "*"
geo = "*"
utm = "*"
clap = { version = "*", features = ["derive"] }
serde = { version = "*", features = ["derive"] }
serde_yaml = "*"
anyhow = "*"
log = "*"
env_logger = "*"
geohash = "*"
