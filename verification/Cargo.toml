[package]
name = "panphon2"
version = "0.1.0"
edition = "2021"
publish = false

[dependencies]
rspanphon = "*"
pyo3 = { version = "0.20", features = ["extension-module"] }
