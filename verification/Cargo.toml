[package]
name = "near-git-storage"
version = "0.1.0"
edition = "2021"
publish = false

[dependencies]
axum = { version = "0.8", default-features = false, features = ["http1", "json", "query", "tokio"] }
base64 = "0.22"
borsh = { version = "1", features = ["derive"] }
bs58 = "0.5"
ed25519-dalek = "2"
flate2 = "1"
near-sandbox = "0.3"
near-sdk = { version = "5", features = ["unit-testing"] }
reqwest = { version = "0.12", default-features = false }
serde = { version = "1", features = ["derive"] }
serde_json = "1"
sha1 = "0.10"
sha2 = "0.10"
tokio = { version = "1", features = ["macros", "net", "rt-multi-thread"] }
tower-http = { version = "0.6", features = ["cors"] }
tracing = "0.1"
tracing-subscriber = { version = "0.3", default-features = false, features = ["fmt"] }
wasm-bindgen = "0.2"
