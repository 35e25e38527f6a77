[package]
name = "aa_engine"
version = "0.1.0"
edition = "2021"
publish = false

[dependencies]
regex = "1"
sha2 = "0.10"
serde = { version = "1", features = ["derive"] }
serde_json = "1"
ron = "*"
toml = "*"
clap = { version = "4", features = ["derive"] }
walkdir = "2"
thiserror = "*"
