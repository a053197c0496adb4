[package]
name = "paged_file_store"
version = "0.1.0"
edition = "2021"
publish = false

[dependencies]
anyhow = "1"
fnv = "1"
memmap = "0.7"
parking_lot = "0.12"
