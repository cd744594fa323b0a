[package]
name = "marline"
version = "0.1.0"
edition = "2021"
publish = false

[dependencies]
chunkfs = "*"
num = "0.4"
rand = "0.8"
thiserror = "1"
zstd = "0.13"
