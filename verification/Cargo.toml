[package]
name = "outliers"
version = "0.1.0"
edition = "2021"

[dev-dependencies]
serde_json = "1"
