[package]
name = "banyan"
version = "0.1.0"
edition = "2021"
publish = false

[dependencies]
zstd = "*"
salsa20 = "*"
anyhow = "*"
ipfs-sqlite-block-store = "*"
libipld = "*"
