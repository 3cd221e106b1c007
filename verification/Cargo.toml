[package]
name = "public_ip_notifier"
version = "0.1.0"
edition = "2021"
publish = false

[dependencies]
serde_json = { version = "=1.0.154", features = ["float_roundtrip"] }
lettre = "=0.11.23"
