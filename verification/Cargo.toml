[package]
name = "vardiff"
version = "0.1.0"
edition = "2021"
publish = false

[dependencies]
bitcoin = "0.32"
statrs = "0.18"
tracing = "0.1"
