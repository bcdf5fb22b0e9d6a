[package]
name = "segment"
version = "0.1.0"
edition = "2021"
publish = false

[dependencies]
rand = "0.8"
serde = { version = "1", features = ["derive"] }
serde_json = "1"
atomic_refcell = "0.1"
schemars = "0.8"
itertools = "0.10"
