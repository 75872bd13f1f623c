[package]
name = "dd_monitor"
version = "0.1.0"
edition = "2021"
publish = false

[dependencies]
csv = "*"
anyhow = "*"
