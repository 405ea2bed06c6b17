[package]
name = "frontmatter_csv"
version = "0.1.0"
edition = "2021"
publish = false

[dependencies]
clap = "*"
regex = "*"
yaml-rust = "*"
itertools = "*"
