[package]
name = "cfw_build"
version = "0.1.0"
edition = "2021"
publish = false

[dependencies]
futures = "*"
hickory-resolver = "*"
tokio = { version = "*", features = ["rt"] }
