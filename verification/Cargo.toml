[package]
name = "ssa"
version = "0.1.0"
edition = "2021"
publish = false

[dependencies]
regex = "1"
json = "0.12"
reqwest = { version = "*", default-features = false, features = ["blocking"] }
