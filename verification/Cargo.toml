[package]
name = "katana_core"
version = "0.1.0"
edition = "2021"
publish = false

[dependencies]
anyhow = "1"
cairo-lang-compiler = "~2.0"
cairo-lang-filesystem = "~2.0"
cairo-lang-starknet = "~2.0"
cairo-lang-utils = "~2.0"
serde_json = "1"
smol_str = "0.2"
starknet = "0.5"
tracing = "0.1"
