[package]
name = "bittorrent_starter_rust"
version = "0.1.0"
edition = "2021"
publish = false

[dependencies]
hex = "*"
sha1 = "*"
serde_json = "*"
