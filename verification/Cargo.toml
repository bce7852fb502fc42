[package]
name = "trader"
version = "0.1.0"
edition = "2021"
publish = false

[dependencies]
chrono = "=0.4.45"
redis = { version = "=0.23.5", default-features = false }
rustc-serialize = "=0.3.25"
