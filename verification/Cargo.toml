[package]
name = "xsgeo"
version = "0.1.0"
edition = "2021"
publish = false

[dependencies]
flate2 = "1"
geometry-rs = "*"
http = "1"
js-sys = "0.3"
serde = { version = "1", features = ["derive"] }
serde_json = "1"
worker = { version = "*", features = ["http"] }
