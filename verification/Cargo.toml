[package]
name = "jot"
version = "0.1.0"
edition = "2021"
publish = false

[dependencies]
chrono = "=0.4.45"
clap = { version = "=4.6.7", features = ["derive", "string"] }
serde = { version = "=1.0.229", features = ["derive"] }
toml = "=0.8.23"
