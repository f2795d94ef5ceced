[package]
name = "webhook_flows"
version = "0.1.0"
edition = "2021"
publish = false

[dependencies]
http_req = { version = "*", default-features = false }
lazy_static = "*"
serde_json = "*"
