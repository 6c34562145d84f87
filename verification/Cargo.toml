[package]
name = "torrent_wire"
version = "0.1.0"
edition = "2021"
publish = false

[dependencies]
sha1 = "0.10"
url = "2"
hex = "0.4"
rand = "0.8"
thiserror = "1"
tokio = { version = "1", features = ["full"] }
reqwest = "0.12"
