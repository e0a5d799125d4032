[package]
name = "ip_repr"
version = "0.1.0"
edition = "2021"
publish = false

[dependencies]
tantivy-bitpacker = "=0.10.0"
q_compress = { version = "=0.11.7", features = ["timestamps_96"] }
zstd = "=0.14.0"
itertools = "=0.15.0"
