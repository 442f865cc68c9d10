[package]
name = "book-safe"
version = "0.1.0"
edition = "2021"
publish = false

[dependencies]
clap = { version = "4", features = ["derive"] }
color-eyre = "0.6"
eyre = "0.6"
indextree = "4"
itertools = "0.10"
log = "0.4"
printpdf = "0.5"
regex = "1"
rust-fuzzy-search = "0.1"
serde = { version = "1", features = ["derive"] }
serde_json = "1"
simplelog = "0.12"
thiserror = "1"
time = { version = "0.3", features = ["local-offset"] }
trust-dns-resolver = "0.22"
