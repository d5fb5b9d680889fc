[package]
name = "learned_index_structures"
version = "0.1.0"
edition = "2021"
publish = false

[dependencies]
rand = "0.5"
tempfile = "3"
toml = "0.4"
