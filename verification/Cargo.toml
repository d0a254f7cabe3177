[package]
name = "borsh"
version = "0.1.0"
edition = "2021"
publish = false

[dependencies]
bytes = "1"
bson = { version = "2", default-features = false }
