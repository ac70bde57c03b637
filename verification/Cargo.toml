[package]
name = "dirsync"
version = "0.1.0"
edition = "2021"
publish = false

[dependencies]
anyhow = "1"
bincode = "1"
clap = "2"
data-encoding = "2"
rayon = "1"
ring = "0.16"
serde = { version = "1", features = ["derive"] }
walkdir = "2"
