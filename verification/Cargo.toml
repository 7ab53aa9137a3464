[package]
name = "clearly-cached"
version = "0.1.0"
edition = "2021"
publish = false

[dependencies]
axum = "0.8"
redb = "3"
reqwest = { version = "0.12", default-features = false, features = ["json", "rustls-tls"] }
serde = { version = "1", features = ["derive"] }
serde_json = "1"
tokio = { version = "1", features = ["macros", "net", "rt-multi-thread", "signal", "sync", "time"] }
