[package]
name = "eye"
version = "0.1.0"
edition = "2021"
publish = false

[dependencies]
memchr = "2"
rustc-hash = "2"
text-size = "1"
memmap2 = "0.9"
thiserror = "2"
lsp-types = "0.95"
serde_json = "1"
anyhow = "1"
