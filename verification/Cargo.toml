[package]
name = "qupido"
version = "0.1.0"
edition = "2021"
publish = false

[dependencies]
petgraph = "*"
uuid = { version = "1", features = ["v4"] }
