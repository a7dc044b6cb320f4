[package]
name = "rle_block"
version = "0.1.0"
edition = "2021"
publish = false

[dependencies]
bytes = "=1.12.1"
rust_decimal = "=1.43.0"

[dev-dependencies]
itertools = "=0.15.0"
