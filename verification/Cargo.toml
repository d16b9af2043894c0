[package]
name = "logicly_sim"
version = "0.1.0"
edition = "2021"
publish = false

[dependencies]
anyhow = "1"
flate2 = "1"
itertools = "*"
serde = { version = "1", features = ["derive"] }
serde-xml-rs = "*"
uuid = { version = "1", features = ["v4"] }
