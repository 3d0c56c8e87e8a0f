[package]
name = "chat_stats"
version = "0.1.0"
edition = "2021"
publish = false

[dependencies]
regex = "1"
serde = { version = "1", features = ["derive"] }
serde_json = "1"
chrono = "0.4"
thiserror = "1"
anyhow = "1"
dotenv = "0.15"
envy = "0.4"
