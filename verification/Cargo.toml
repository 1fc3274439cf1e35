[package]
name = "grug"
version = "0.1.0"
edition = "2021"
publish = false

[dependencies]
clap = "4"
rayon = "1"
similar = "2"
xxhash-rust = { version = "0.8", features = ["xxh32"] }
