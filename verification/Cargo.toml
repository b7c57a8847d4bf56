[package]
name = "ngram_classifier"
version = "0.1.0"
edition = "2021"
publish = false

[dependencies]
rand = "0.8"
csv = "1"
json = "0.12"
