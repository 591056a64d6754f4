[package]
name = "tongrams"
version = "0.1.0"
edition = "2021"
publish = false

[dependencies]
yada = "*"
sucds = "0.2"
serde_json = "*"
anyhow = "*"
