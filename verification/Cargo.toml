[package]
name = "indexer_walker"
version = "0.1.0"
edition = "2021"
publish = false

[dependencies]
globset = "*"
uuid = { version = "*", features = ["v4"] }
