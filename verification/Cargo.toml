[package]
name = "internetarchive_core"
version = "0.1.0"
edition = "2021"
publish = false

[dependencies]
serde_json = "1"
json-patch = "*"
urlencoding = "2"
glob = "0.3"
chrono = { version = "0.4", default-features = false, features = ["clock", "std"] }

[dev-dependencies]
