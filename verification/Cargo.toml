[package]
name = "shardstore"
version = "0.1.0"
edition = "2021"
publish = false

[dependencies]
sha2 = "0.10"
flate2 = "1"
lz4_flex = "0.11"
