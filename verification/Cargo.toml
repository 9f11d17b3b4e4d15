[package]
name = "reverse_proxy"
version = "0.1.0"
edition = "2021"
publish = false

[dependencies]
async-std = { version = "1", features = ["attributes"] }
futures = "0.3"
