[package]
name = "slop-gate"
version = "0.3.1"
edition = "2021"
publish = false

[dependencies]
blake3 = "1"
tree-sitter = "*"
tree-sitter-rust = "*"
clap = { version = "4", features = ["derive"] }
serde = { version = "1", features = ["derive"] }
serde_json = "1"
thiserror = "*"
toml = "*"
