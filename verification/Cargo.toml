[package]
name = "context-snipe"
version = "0.1.0"
edition = "2021"
publish = false

[dependencies]
serde_json = "1"
toml = "0.8"
ureq = { version = "2", features = ["json"] }
