[package]
name = "codeinput"
version = "0.1.0"
edition = "2021"
publish = false

[dependencies]
ignore = "*"
sha2 = "*"
git2 = "*"
