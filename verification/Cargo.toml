[package]
name = "laya_snake"
version = "0.1.0"
edition = "2021"
publish = false

[dependencies]
rand = "0.9"
tokenizers = "*"
laya = "*"
anyhow = "1"
serde_json = "1"
crossterm = "*"
memmap2 = "0.9"
rayon = "1"
libm = "0.2"
