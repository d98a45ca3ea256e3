[package]
name = "open_finder"
version = "0.1.0"
edition = "2021"
publish = false

[dependencies]
md5 = "=0.8.1"
html2text = "=0.17.1"
urlencoding = "=2.1.3"
reqwest = { version = "=0.13.5", features = ["cookies", "gzip", "form"] }
tokio = { version = "=1.53.2", features = ["rt-multi-thread", "macros", "time"] }
futures = "=0.3.34"
meilisearch-sdk = "=0.33.0"
pdf-extract = "=0.12.1"
sevenz-rust = "=0.6.1"
rpassword = "=7.5.4"
serde = { version = "=1.0.229", features = ["derive"] }
