[package]
name = "rust_tokenizers"
version = "0.1.0"
edition = "2021"
publish = false

[dependencies]
serde_json = "1"
unicode-normalization = "0.1"
