[package]
name = "git_surgeon"
version = "0.1.0"
edition = "2021"
publish = false

[dependencies]
anyhow = "1"
clap = { version = "4", features = ["derive"] }
dirs = "*"
hex = "0.4"
sha1 = "0.10"
