[package]
name = "mdx_formatter"
version = "0.1.0"
edition = "2021"
publish = false

[dependencies]
markdown = "1"
regex = "1"
serde_yaml = "0.9"
serde = { version = "1", features = ["derive"] }
serde_json = "1"
clap = { version = "4", features = ["derive"] }
colored = "2"
glob = "0.3"
ignore = "0.4"
