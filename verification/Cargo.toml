[package]
name = "graph_store"
version = "0.1.0"
edition = "2021"
publish = false

[dependencies]
fastrand = "2"
ndarray = { version = "0.16", default-features = false, features = ["std"] }
rustc-hash = "2"
