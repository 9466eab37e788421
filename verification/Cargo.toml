[package]
name = "citestance"
version = "0.1.0"
edition = "2021"
publish = false

[dependencies]
anyhow = "1"
pdf-extract = "*"
rust-bert = "*"
serde = { version = "1", features = ["derive"] }
serde_json = "1"
