[package]
name = "sort_solves"
version = "0.1.0"
edition = "2021"
publish = false

[dependencies]
chrono = { version = "*", features = ["serde"] }
clap = { version = "*", features = ["derive"] }
serde = { version = "*", features = ["derive"] }
serde_json = "*"

[dev-dependencies]
rand = "*"
uuid = { version = "*", features = ["v4"] }
