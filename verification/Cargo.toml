[package]
name = "herdr-space-colors"
version = "0.3.2"
edition = "2021"
publish = false

[dependencies]
serde_json = "1"
toml_edit = "0.22"
