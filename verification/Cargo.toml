[package]
name = "choreful"
version = "0.1.0"
edition = "2021"
publish = false

[dependencies]
clap = "*"
colored = "*"
rand = "*"
serde = { version = "*", features = ["derive"] }
serde_json = "*"
