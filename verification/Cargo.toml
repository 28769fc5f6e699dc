[package]
name = "toru"
version = "0.1.0"
edition = "2021"
publish = false

[dependencies]
chrono = { version = "0.4", features = ["serde"] }
clap = { version = "3.2", features = ["derive"] }
colored = "2"
comfy-table = "6"
confy = "0.4"
serde = { version = "1", features = ["derive"] }
serde_with = "2"
toml = "0.5"
trash = "2"
