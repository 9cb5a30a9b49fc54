[package]
name = "code_context_builder"
version = "0.1.0"
edition = "2021"
publish = false

[dependencies]
chrono = "0.4"
ignore = "0.4"
once_cell = "1"
rayon = "1"
rusqlite = { version = "*", features = ["bundled"] }
serde = { version = "1", features = ["derive"] }
serde_json = "1"
tiktoken-rs = "*"
tree-sitter = "0.20"
tree-sitter-python = "0.20"
tree-sitter-typescript = "0.20"
