[package]
name = "sitecrawl"
version = "0.1.0"
edition = "2021"
publish = false

[dependencies]
url = "*"
scraper = "*"
reqwest = "*"
tokio = { version = "*", features = ["rt-multi-thread", "macros"] }
futures = "*"
quick-xml = "*"
dialoguer = "*"
