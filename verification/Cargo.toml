[package]
name = "sandwich"
version = "0.1.0"
edition = "2021"
publish = false

[dependencies]
rand = "*"
seqalign = "*"
serde = { version = "*", features = ["derive"] }
serde_json = "*"
serde_yaml = "*"
async-std = { version = "*", features = ["attributes"] }
anyhow = "*"
hostname = "*"
