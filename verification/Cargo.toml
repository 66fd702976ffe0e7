[package]
name = "aptos_transform"
version = "0.1.0"
edition = "2021"
publish = false

[dependencies]
serde = "1"
serde_json = "1"
log = "0.4"
lazy_static = "1"
wee_alloc = "0.4"
