[package]
name = "conversor-sistemas-numeracao"
version = "0.1.0"
edition = "2021"
publish = false

[dependencies]
ratatui = "*"
color-eyre = "0.6"
csv = "1"
