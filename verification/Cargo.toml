[package]
name = "html_extract"
version = "0.1.0"
edition = "2021"
publish = false

[dependencies]
clap = { version = "4", features = ["derive"] }
colored = "*"
ego-tree = "*"
html-escape = "*"
regex = "*"
scraper = "*"
serde_json = "*"
