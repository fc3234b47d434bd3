[package]
name = "actionkv"
version = "0.1.0"
edition = "2021"
publish = false

[dependencies]
bincode = "1"
