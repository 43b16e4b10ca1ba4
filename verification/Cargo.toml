[package]
name = "mdbook-excalidraw"
version = "0.1.0"
edition = "2021"
publish = false

[dependencies]
anyhow = "1"
clap = { version = "4", features = ["derive"] }
env_logger = "0.11"
log = "0.4"
mdbook = { version = "0.4", default-features = false }
pulldown-cmark = { version = "0.10", default-features = false }
serde_json = "1"
toml_edit = "0.22"
