[package]
name = "tree_hash"
version = "0.1.0"
edition = "2021"
publish = false

[dependencies]
ethereum_hashing = "*"
