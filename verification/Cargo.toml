[package]
name = "scrabby"
version = "0.1.0"
edition = "2021"
publish = false

[dependencies]
colored = "2"
serde = "1"
serde_derive = "1"
