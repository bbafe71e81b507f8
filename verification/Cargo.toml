[package]
name = "timelog"
version = "0.1.0"
edition = "2021"
publish = false

[dependencies]
chrono = { version = "0.4", features = ["serde"] }
clap = { version = "4", features = ["derive", "env"] }
comfy-table = "*"
console = "*"
dialoguer = "*"
serde = { version = "1", features = ["derive"] }
serde_yaml = "0.9"
