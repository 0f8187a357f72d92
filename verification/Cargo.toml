[package]
name = "infohash"
version = "0.1.0"
edition = "2021"
publish = false

[dependencies]
anyhow = "1"
askama = "0.12"
axum = { version = "0.6", features = ["multipart"] }
axum_typed_multipart = "0.10"
hex = "0.4"
sha1 = "0.10"
tokio = { version = "1", features = ["macros", "rt-multi-thread"] }
tracing = "0.1"
tracing-subscriber = { version = "0.3", features = ["env-filter"] }

[dev-dependencies]
serde_bencode = "0.2"
serde_bytes = "0.11"
