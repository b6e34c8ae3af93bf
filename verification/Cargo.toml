[package]
name = "local-code-intelligence"
version = "0.1.0"
edition = "2021"
publish = false

[dependencies]
anyhow = "=1.0.104"
arrow-array = "=60.1.0"
arrow-schema = "=60.1.0"
axum = "=0.8.9"
clap = { version = "=4.6.7", features = ["derive"] }
dirs = "=7.0.0"
dunce = "=1.0.5"
futures = "=0.3.34"
globset = "=0.4.21"
ignore = "=0.4.34"
reqwest = { version = "=0.12.28", default-features = false, features = ["json"] }
rmcp = { version = "=3.8.0", features = ["server", "macros", "transport-streamable-http-server"] }
schemars = "=1.2.3"
serde = { version = "=1.0.229", features = ["derive"] }
serde_json = "=1.0.154"
sha2 = "=0.10.9"
tokio = { version = "=1.54.1", features = ["full"] }
tokio-util = "=0.7.20"
toml = "=0.8.23"
tracing = "=0.1.44"
tracing-subscriber = { version = "=0.3.23", features = ["env-filter"] }
tree-sitter = "=0.25.10"
tree-sitter-c-sharp = "=0.23.5"
tree-sitter-go = "=0.25.0"
tree-sitter-java = "*"
tree-sitter-javascript = "=0.25.0"
tree-sitter-python = "=0.25.0"
tree-sitter-rust = "=0.24.2"
tree-sitter-typescript = "=0.23.2"
