[package]
name = "tdo_export"
version = "0.1.0"
edition = "2021"
publish = false

[dependencies]
colored = "2"
libc = "0.2"
serde_json = "1"

[dependencies.reqwest]
version = "0.12"
default-features = false
features = ["blocking", "json"]
