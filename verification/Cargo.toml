[package]
name = "merkle_frontier"
version = "0.1.0"
edition = "2021"
publish = false

[dependencies]
orchard = "=0.16.0"
incrementalmerkletree = { version = "=0.9.0", features = ["legacy-api"] }
