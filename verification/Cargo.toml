[package]
name = "liteparse-coverage"
version = "0.1.0"
edition = "2021"
publish = false

[dependencies]
negative-space-testing = "*"
