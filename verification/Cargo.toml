[package]
name = "codeatlas"
version = "0.1.0"
edition = "2021"
publish = false

[dependencies]
anyhow = "1"
chrono = "0.4"
clap = { version = "4", features = ["derive"] }
dirs = "*"
ignore = "0.4"
indicatif = "*"
libc = "0.2"
rayon = "1"
rusqlite = { version = "*", features = ["bundled"] }
serde = { version = "1", features = ["derive"] }
serde_json = "1"
tree-sitter = "*"
tree-sitter-go = "*"
tree-sitter-ruby = "*"
tree-sitter-typescript = "*"
xxhash-rust = { version = "*", features = ["xxh3"] }
