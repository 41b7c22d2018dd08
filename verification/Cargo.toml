[package]
name = "nascraft"
version = "0.1.0"
edition = "2021"
publish = false

[dependencies]
log = "*"
notify = "=8.2.0"
serde_json = "=1.0.151"
