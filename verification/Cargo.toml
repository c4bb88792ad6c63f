[package]
name = "doco"
version = "0.1.0"
edition = "2021"
publish = false

[dependencies]
regex = "1"
serde = { version = "1", features = ["derive"] }
serde_json = "1"
mustache = "0.9"
rand = "0.4"
