[package]
name = "access_json"
version = "0.1.0"
edition = "2021"
publish = false

[dependencies]
erased-serde = "0.3"
serde = "1"
serde_derive = "1"
serde_json = "1"
