[package]
name = "rush"
version = "0.1.0"
edition = "2021"
publish = false

[dependencies]
openssl = "*"
blake3 = "*"
clap = { version = "*", features = ["derive"] }
serde = { version = "*", features = ["derive"] }
serde_json = "*"
