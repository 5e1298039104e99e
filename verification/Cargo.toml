[package]
name = "dilithium_harness"
version = "0.1.0"
edition = "2021"
publish = false

[dependencies]
esp-idf-sys = { version = "*", default-features = false }
