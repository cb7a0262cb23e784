[package]
name = "editorconfig_core"
version = "0.1.0"
edition = "2021"
publish = false

[dependencies]
rust-ini = "*"
path-clean = "1"
clap = { version = "4", features = ["derive"] }
