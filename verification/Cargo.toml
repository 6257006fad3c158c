[package]
name = "drake"
version = "0.1.0"
edition = "2021"
publish = false

[dependencies]
patricia_tree = "*"
anyhow = "*"
clap = { version = "*", features = ["derive"] }
crossbeam = "*"
ignore = "*"
num_cpus = "*"
tree-sitter = "*"
tree-sitter-swift = "*"
