[package]
name = "gitgraph"
version = "0.1.0"
edition = "2021"
publish = false

[dependencies]
git2 = { version = "0.18", default-features = false }
