[package]
name = "relate"
version = "0.1.0"
edition = "2021"
publish = false

[dependencies]
anyhow = "*"
ariadne = "*"
clap = { version = "*", features = ["derive", "env"] }
comfy-table = "*"
cypher-data = "*"
dotenvy = "*"
gram-data = "*"
gram-diagnostics = "*"
neo4rs = "*"
open = "*"
regex = "*"
rmcp = { version = "*", features = ["server", "transport-io", "macros"] }
schemars = "*"
serde = { version = "*", features = ["derive"] }
serde_json = "*"
svg = "*"
tokio = { version = "*", features = ["macros", "rt-multi-thread", "io-std"] }
tree-sitter = "*"
tree-sitter-cypher = "*"
tree-sitter-cypherdoc = "*"
walkdir = "*"
