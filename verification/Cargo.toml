[package]
name = "keyword_extraction"
version = "0.1.0"
edition = "2021"
publish = false

[dependencies]
regex = "=1.13.1"
unicode-segmentation = "=1.13.3"

[dev-dependencies]
stop-words = "*"
