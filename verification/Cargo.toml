[package]
name = "torrent"
version = "0.1.0"
edition = "2021"
publish = false

[dependencies]
sha1 = "0.10"
hex-literal = "0.4"
reqwest = { version = "0.12", default-features = false, features = ["blocking"] }
