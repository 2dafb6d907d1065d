[package]
name = "aora"
version = "0.1.0"
edition = "2021"
publish = false

[dependencies]
amplify = { version = "*", features = ["hex"] }
binfile = "*"
indexmap = { version = "*", features = ["std"] }
strict_encoding = "*"
