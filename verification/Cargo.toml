[package]
name = "sysrunner"
version = "0.1.0"
edition = "2021"
publish = false

[dependencies]
chrono = "*"
clap = { version = "4", features = ["derive"] }
colored = "*"
serde = { version = "1", features = ["derive"] }
serde_json = "1"
toml = "*"
walkdir = "2"
