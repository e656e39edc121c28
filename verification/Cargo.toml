[package]
name = "tocfl"
version = "0.1.0"
edition = "2021"
publish = false

[dependencies]
pinyin = "*"
prettify_pinyin = "*"
serde = { version = "*", features = ["derive"] }
serde_json = "*"
calamine = "*"
