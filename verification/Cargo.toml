[package]
name = "helix_move"
version = "0.1.0"
edition = "2021"
publish = false

[dependencies]
anyhow = "*"
clap = { version = "*", features = ["derive"] }
serde = { version = "*", features = ["derive"] }
serde_json = "*"
tempfile = "*"
tokio = { version = "*", features = ["io-std", "io-util", "macros", "rt-multi-thread", "sync"] }
toml = "*"
tower-lsp = "*"
