[package]
name = "short"
version = "0.1.0"
edition = "2021"
publish = false

[dependencies]
sled = "*"
url = "*"
urlencoding = "*"
uuid = { version = "*", features = ["v4"] }
tokio = { version = "*", features = ["rt"] }
tracing = "*"
thiserror = "*"
