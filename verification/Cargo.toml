[package]
name = "crawly"
version = "0.1.0"
edition = "2021"
publish = false

[dependencies]
bitcoin = { version = "*", default-features = false, features = ["std"] }
data-encoding = "*"
rand = "*"
sha3 = "*"
tokio = { version = "*", features = ["full"] }
tokio-socks = "*"
