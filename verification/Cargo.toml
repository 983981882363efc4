[package]
name = "clonehort"
version = "0.1.0"
edition = "2021"
publish = false

[dependencies]
anyhow = "1"
clap = { version = "4", features = ["derive"] }
rayon = "1"
rust-htslib = { version = "*", default-features = false }
