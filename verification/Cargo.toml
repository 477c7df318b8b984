[package]
name = "corkboard"
version = "0.1.0"
edition = "2021"
publish = false

[dependencies]
anyhow = "*"
chrono = { version = "*", default-features = false, features = ["std", "clock"] }
reqwest = { version = "*", default-features = false, features = ["blocking"] }
roxmltree = "*"
rusqlite = { version = "*", features = ["bundled"] }
sha2 = "*"
tokio = { version = "*", features = ["rt-multi-thread"] }
url = "*"
