[package]
name = "dust"
version = "0.1.0"
edition = "2021"
publish = false

[dependencies]
anyhow = "=1.0.104"
async-fs = "=1.6.0"
async-std = "=1.13.2"
async-trait = "=0.1.92"
blake3 = "=1.8.7"
clap = { version = "=4.6.7", features = ["derive"] }
futures = "=0.3.34"
pest = "=2.9.4"
serde = { version = "=1.0.229", features = ["derive"] }
serde_json = "=1.0.154"
shellexpand = "=2.1.2"
tokio = { version = "=1.54.1", features = ["full"] }
urlencoding = "=2.1.3"
