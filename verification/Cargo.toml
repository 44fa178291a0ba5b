[package]
name = "pypi_resolver"
version = "0.1.0"
edition = "2021"
publish = false

[dependencies]
pubgrub = "0.2"
serde_json = "*"

[dependencies.reqwest]
version = "*"
default-features = false
features = ["blocking"]
