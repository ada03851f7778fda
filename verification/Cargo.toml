[package]
name = "mktorrent"
version = "0.1.0"
edition = "2021"
publish = false

[dependencies]
ring = "*"
rayon = "*"
anyhow = "*"
clap = { version = "*", features = ["derive"] }
walkdir = "*"
indicatif = "*"
