[package]
name = "creators"
version = "0.1.0"
edition = "2021"
publish = false

[dependencies]
cosmwasm-std = "1.5"
cosmwasm-schema = "1.5"
cw-storage-plus = "1.2"
cw-utils = "1.0"
cw-multi-test = "0.16"
thiserror = "1"
anyhow = "1"
