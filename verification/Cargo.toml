[package]
name = "dht_node"
version = "0.1.0"
edition = "2021"
publish = false

[dependencies]
chrono = { version = "0.4", default-features = false, features = ["clock"] }
hex = "0.4"
rand = "0.8"
sha1 = "0.10"

[dev-dependencies]
serde_bencode = "0.2"
