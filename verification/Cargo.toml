[package]
name = "gram-data"
version = "0.3.9"
edition = "2021"
publish = false

[dependencies]
anyhow = "1"
ariadne = "0.5"
clap = { version = "4", features = ["derive"] }
serde = { version = "1", features = ["derive"] }
serde_json = "1"
tree-sitter = "0.25"
walkdir = "2"
