[package]
name = "sparse_tags"
version = "0.1.0"
edition = "2021"
publish = false

[dependencies]
indexmap = "2"
slab = "0.4"
stable-vec = "0.4"
