[package]
name = "astdiff"
version = "0.1.0"
edition = "2021"
publish = false

[dependencies]
anyhow = "1"
bincode = "1.3"
chrono = "0.4"
clap = { version = "4", features = ["derive"] }
memmap2 = "0.9"
rayon = "1"
serde = { version = "1", features = ["derive"] }
serde_json = "1"
serde_yaml = "0.9"
sha2 = "0.10"
similar = "2"
tempfile = "3"
tree-sitter = "0.20"
tree-sitter-javascript = "0.20.4"
zstd = "0.13"
