[package]
name = "regex_nfa"
version = "0.1.0"
edition = "2021"
publish = false

[dependencies]
clap = { version = "3", features = ["derive"] }
regex-syntax = "0.6"
