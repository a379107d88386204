[package]
name = "rpx_patch"
version = "0.1.0"
edition = "2021"
publish = false

[dependencies]
dirs = "*"
ini = "1"
keystone = "*"
meval = "0.2"
regex = "1"
serde = { version = "1", features = ["derive"] }
serde_json = "1"
