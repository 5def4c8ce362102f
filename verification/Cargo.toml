[package]
name = "netflow"
version = "0.1.0"
edition = "2021"
publish = false

[dependencies]
ndarray = "*"
serde = { version = "1", features = ["derive"] }
serde-xml-rs = "*"
