[package]
name = "splitter"
version = "0.1.0"
edition = "2021"
publish = false

[dependencies]
soroban-sdk = "20.0.0"
soroban-fixed-point-math = "~1.0"
