[package]
name = "extended_collections"
version = "0.1.0"
edition = "2021"
publish = false

[dependencies]
bincode = "1"

[dev-dependencies]
rand = "0.4"
