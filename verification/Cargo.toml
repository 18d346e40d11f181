[package]
name = "point_cloud"
version = "0.1.0"
edition = "2021"
publish = false

[dependencies]
rustc-hash = "=2.1.3"
byteorder = "=1.5.0"
glam = { version = "=0.34.2", features = ["serde"] }
serde = { version = "=1.0.229", features = ["derive"] }
serde_json = "=1.0.154"
clap = { version = "=4.6.7", features = ["derive"] }
env_logger = "=0.11.11"
log = "=0.4.35"
ply-rs = "=0.1.3"
las = "=0.11.2"
itertools = "=0.15.0"
caches = "*"
