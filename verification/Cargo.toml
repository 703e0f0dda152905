[package]
name = "hiker_editor"
version = "0.1.0"
edition = "2021"
publish = false

[dependencies]
pulldown-cmark = { version = "*", default-features = false }
regex = "*"
tree-sitter = "*"
tree-sitter-rust = "*"
tree-sitter-python = "*"
egui = "*"
serde = { version = "*", features = ["derive"] }
smol_str = "*"
