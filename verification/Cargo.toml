[package]
name = "mex"
version = "0.1.0"
edition = "2021"
publish = false

[dependencies]
annotate-snippets = "0.12"
anstream = "*"
anyhow = "1"
clap = { version = "4", features = ["derive"] }
