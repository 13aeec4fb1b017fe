[package]
name = "xcx_archive"
version = "0.1.0"
edition = "2021"
publish = false

[dependencies]
xxhash-rust = { version = "*", features = ["xxh64"] }
clap = { version = "*", features = ["derive"] }
indicatif = "*"
