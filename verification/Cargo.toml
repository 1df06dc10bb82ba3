[package]
name = "patina_core"
version = "0.1.0"
edition = "2021"
publish = false

[dependencies]
chrono = "*"
feed-rs = "*"
opml = "*"
url = "*"
reqwest = { version = "*", default-features = false, features = ["blocking"] }
scraper = "*"
