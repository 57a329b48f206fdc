[package]
name = "graphkv"
version = "0.1.0"
edition = "2021"
publish = false

[dependencies]
rocksdb = "*"
