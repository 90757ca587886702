[package]
name = "watchmind"
version = "0.1.0"
edition = "2021"
publish = false

[dependencies]
csv = "1"
sha2 = "0.10"
serde = { version = "1", features = ["derive"] }
serde_json = "1"
thiserror = "2"
tokio = { version = "1", features = ["rt-multi-thread", "macros", "fs", "net"] }
axum = "0.8"
reqwest = { version = "0.12", default-features = false, features = ["json"] }
sqlx = { version = "0.8", default-features = false, features = ["runtime-tokio", "sqlite"] }
