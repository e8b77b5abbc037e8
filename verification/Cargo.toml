[package]
name = "blob_wrangler"
version = "0.0.1"
edition = "2021"
publish = false

[dependencies]
clap = { version = "4", features = ["derive"] }
fs_extra = "1"
goblin = "*"
indexmap = { version = "2", features = ["serde"] }
log = "0.4"
nix = { version = "*", features = ["mount"] }
pretty_env_logger = "*"
serde = { version = "1", features = ["derive"] }
serde_json = "1"
serde_norway = "*"
toml = "*"
