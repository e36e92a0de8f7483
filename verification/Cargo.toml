[package]
name = "commit_message_lints"
version = "0.1.0"
edition = "2021"
publish = false

[dependencies]
regex = "*"
clap = "*"
git2 = "*"
