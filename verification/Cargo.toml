[package]
name = "quarkup"
version = "0.1.0"
edition = "2021"
publish = false

[dependencies]
base64 = "*"
syntect = { version = "*", default-features = false, features = ["default-fancy"] }
mathjax-svg-rs = "*"
