[package]
name = "mc_scanner"
version = "0.1.0"
edition = "2021"
publish = false

[dependencies]
ipnet = "2"
serde = { version = "1", features = ["derive"] }
serde_json = "1"
tokio = { version = "1", features = ["full"] }
clap = { version = "4", features = ["derive"] }
anyhow = "1"
futures = "0.3"
async-bincode = "0.7"
bincode = "2"
thiserror = "2"
