[package]
name = "gunzip"
version = "0.1.0"
edition = "2021"
publish = false

[dev-dependencies]
flate2 = "1"
