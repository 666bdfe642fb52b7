[package]
name = "florg"
version = "0.1.0"
edition = "2021"
publish = false

[dependencies]
sha256 = { version = "*", default-features = false }
serde_json = "*"
chrono = "*"
walkdir = "*"
toml_edit = "*"
anyhow = "*"
