[package]
name = "kvstore"
version = "0.1.0"
edition = "2021"
publish = false

[dependencies]
bincode = "0.6"
rustc-serialize = "0.3"
