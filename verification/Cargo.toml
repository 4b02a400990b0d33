[package]
name = "rtk"
version = "0.1.0"
edition = "2021"
publish = false

[dependencies]
anyhow = "=1.0.104"
walkdir = "=2.5.0"
serde = { version = "1", features = ["derive"] }
toml = "0.8"
