[package]
name = "pxml"
version = "0.1.0"
edition = "2021"
publish = false

[dependencies]
memchr = "2"
memmap2 = "0.9"
quick-xml = "0.40"
rayon = "1"
zstd = "0.13"
