[package]
name = "kanimiso"
version = "0.2.0"
edition = "2021"
publish = false

[dependencies]
faer = { version = "0.24", default-features = false, features = ["std"] }
