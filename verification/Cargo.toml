[package]
name = "regia"
version = "0.1.0"
edition = "2021"
publish = false

[dependencies]
uuid = { version = "*", features = ["v4"] }
chrono = "*"
clap = "*"
colored = "*"
dirs = "*"
serde = "*"
serde_yaml = "*"
