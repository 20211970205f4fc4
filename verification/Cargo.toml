[package]
name = "recency_cache"
version = "0.1.0"
edition = "2021"
publish = false

[dependencies]
hash-injector = "=0.0.3-alpha"
