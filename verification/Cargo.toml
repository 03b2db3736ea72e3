[package]
name = "infospark"
version = "0.1.0"
edition = "2021"
publish = false

[dependencies]
anyhow = "*"
colored = "*"
open = "*"
pdf-extract = "*"
rust-stemmers = "*"
rustyline = "*"
scraper = "*"
serde = { version = "*", features = ["derive"] }
serde_json = "*"
stop-words = "*"
strsim = "*"
