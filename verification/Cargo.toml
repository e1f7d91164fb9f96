[package]
name = "alias8n"
version = "0.1.0"
edition = "2021"
publish = false

[dependencies]
regex = "*"
serde_json = "*"
