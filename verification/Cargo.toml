[package]
name = "tfidf_index"
version = "0.1.0"
edition = "2021"
publish = false

[dependencies]
anyhow = "=1.0.104"
regex = "=1.13.1"
skiplist = "=0.5.1"
uuid = { version = "=1.29.0", features = ["v4"] }
