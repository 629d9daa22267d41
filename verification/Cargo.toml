[package]
name = "reposcan"
version = "0.1.0"
edition = "2021"
publish = false

[dependencies]
clap = { version = "*", features = ["derive"] }
git2 = "*"
home = "*"
