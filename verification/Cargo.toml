[package]
name = "simstring_rust"
version = "0.1.0"
edition = "2021"
publish = false

[dependencies]
lasso = "*"
serde_json = "*"
clap = { version = "*", features = ["derive"] }
