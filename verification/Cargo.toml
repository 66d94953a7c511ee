[package]
name = "card_parser"
version = "0.1.0"
edition = "2021"
publish = false

[dependencies]
html-escape = "0.2"
scraper = "*"
serde = { version = "1", features = ["derive"] }
serde_json = "1"
reqwest = { version = "0.12", default-features = false, features = ["rustls-tls"] }
tokio = { version = "1", features = ["macros", "rt-multi-thread"] }
