[package]
name = "hnsw"
version = "0.1.0"
edition = "2021"
publish = false

[dependencies]
arrayvec = "0.4"
fnv = "1"
ordered-float = "0.5"
pbr = "1"
rayon = "1"
revord = "*"
