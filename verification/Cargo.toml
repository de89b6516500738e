[package]
name = "httpserver"
version = "0.1.0"
edition = "2021"
publish = false

[dependencies]
hex = "0.4"
reqwest = { version = "0.12", default-features = false }
sha2 = "0.10"
thiserror = "2"
tokio = { version = "1", features = ["full"] }
