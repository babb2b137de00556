[package]
name = "limit_hydrate"
version = "0.1.0"
edition = "2021"
publish = false

[dependencies]
roaring = "*"
