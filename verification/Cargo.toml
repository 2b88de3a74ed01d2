[package]
name = "wadachi"
version = "0.1.0"
edition = "2021"
publish = false

[dependencies]
chrono = "=0.4.45"
dirs = "=5.0.1"
clap = { version = "=4.6.7", features = ["derive"] }
rusqlite = { version = "=0.31.0", features = ["bundled"] }
notify = "=6.1.1"
serde = { version = "=1.0.229", features = ["derive"] }
anyhow = "=1.0.104"
