[package]
name = "cmd_wrapped"
version = "0.1.0"
edition = "2021"
publish = false

[dependencies]
chrono = "*"
clap = { version = "*", features = ["cargo"] }
colored = "*"
num-traits = "*"
serde = { version = "*", features = ["derive"] }
toml = "*"
