[package]
name = "pr_train"
version = "0.1.0"
edition = "2021"
publish = false

[dependencies]
backoff = "*"
clap = { version = "*", features = ["derive"] }
dialoguer = "*"
serde = { version = "*", features = ["derive"] }
serde_json = "*"
spinners = "*"
