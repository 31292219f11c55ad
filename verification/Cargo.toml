[package]
name = "mimi"
version = "0.1.0"
edition = "2021"
publish = false

[dependencies]
axum = "0.7"
bs58 = "0.5"
bytes = "1"
dotenvy = "0.15"
ed25519-dalek = "2"
futures-util = "0.3"
reqwest = { version = "0.12", default-features = false, features = ["json", "stream", "rustls-tls"] }
serde = { version = "1", features = ["derive"] }
serde_json = "1"
tokio = { version = "1", features = ["macros", "rt-multi-thread", "net", "time", "sync"] }
tower-http = { version = "0.5", features = ["cors"] }
