[package]
name = "grep_redo"
version = "0.1.0"
edition = "2021"
publish = false

[dependencies]
clap = { version = "4", features = ["derive"] }
encoding_rs = "0.8"
glob = "0.3"
rayon = "1"
regex = "1"
walkdir = "2"
