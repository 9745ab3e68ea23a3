[package]
name = "zenscript-toolkit"
version = "0.1.0"
edition = "2021"
publish = false

[dependencies]
anyhow = "1"
lsp-server = "*"
lsp-types = "*"
serde = { version = "1", features = ["derive"] }
serde_json = "1"
zed_extension_api = "*"
