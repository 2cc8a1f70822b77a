[package]
name = "card_builder"
version = "0.1.0"
edition = "2021"
publish = false

[dependencies]
jieba-rs = "*"
html-escape = "*"
unicode-segmentation = "*"
rand = "*"
csv = "*"
serde = { version = "*", features = ["derive"] }
serde_json = "*"
anyhow = "*"
genanki-rs = "*"
indicatif = "*"
