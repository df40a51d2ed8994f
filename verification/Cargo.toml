[package]
name = "tile_spiral"
version = "0.1.0"
edition = "2021"
publish = false

[dependencies]
near-sdk = "*"
near-contract-standards = "*"
