[package]
name = "vehicle_routing"
version = "0.1.0"
edition = "2021"
publish = false

[dependencies]
rand = "*"
priority-queue = "*"
blossom = "*"
log = "*"
env_logger = "*"
clap = { version = "*", features = ["derive"] }
