[package]
name = "image_sorter"
version = "0.1.0"
edition = "2021"
publish = false

[dependencies]
rust-fuzzy-search = "*"
serde_yaml = "*"
