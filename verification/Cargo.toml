[package]
name = "composefs"
version = "0.1.0"
edition = "2021"
publish = false

[dependencies]
anyhow = "*"
camino = "*"
cap-std = "*"
clap = { version = "*", features = ["derive"] }
flate2 = "*"
ocidir = "*"
serde_json = "*"
sha2 = "*"
