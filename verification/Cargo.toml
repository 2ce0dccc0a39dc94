[package]
name = "sqlx_inline_fmt"
version = "0.1.0"
edition = "2021"
publish = false

[dependencies]
anyhow = "1"
clap = { version = "4", features = ["derive"] }
litrs = "*"
shlex = "1"
tree-sitter = "0.25"
tree-sitter-rust = "0.24"
walkdir = "2"
