[package]
name = "log_analyzer"
version = "0.1.0"
edition = "2021"
publish = false

[dependencies]
memmap2 = "*"
serde = { version = "1", features = ["derive"] }
serde_json = "1"
stopwords = "*"
