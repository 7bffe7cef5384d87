[package]
name = "fifotax"
version = "0.1.0"
edition = "2021"
publish = false

[dependencies]
chrono = { version = "*", features = ["serde"] }
clap = "*"
csv = "*"
serde = { version = "*", features = ["derive"] }
