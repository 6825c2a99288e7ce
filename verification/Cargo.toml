[package]
name = "scrape_core"
version = "0.1.0"
edition = "2021"
publish = false

[dependencies]
scraper = "*"
serde_json = "*"
urlencoding = "*"
serde = { version = "*", features = ["derive"] }
regex = "*"
reqwest = { version = "*", default-features = false, features = ["blocking", "json"] }
