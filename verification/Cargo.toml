[package]
name = "logical_clocks_rs"
version = "0.1.0"
edition = "2021"
publish = false

[dependencies]
uuid = { version = "*", features = ["v4"] }
base64 = "*"
serde = { version = "*", features = ["derive"] }
