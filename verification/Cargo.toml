[package]
name = "lru_collections"
version = "0.1.0"
edition = "2021"
publish = false

[dependencies]
deepmesa-collections = "=0.14.0"
