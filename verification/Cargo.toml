[package]
name = "canonicalize_jsonl"
version = "0.1.0"
edition = "2021"
publish = false

[dependencies]
binary-ensemble = "=1.0.0"
clap = "=4.6.7"
serde_json = "=1.0.151"
