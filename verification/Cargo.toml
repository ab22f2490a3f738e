[package]
name = "sequential_storage"
version = "0.1.0"
edition = "2021"

[dependencies]
embedded-storage = "0.3"
