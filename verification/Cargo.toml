[package]
name = "switchhosts"
version = "0.1.0"
edition = "2021"
publish = false

[dependencies]
axum = { version = "0.8", default-features = false, features = ["http1", "json", "query", "tokio"] }
chrono = { version = "0.4", default-features = false, features = ["alloc", "clock", "std"] }
log = "0.4"
serde = { version = "1", features = ["derive"] }
serde_json = "1"
tauri = { version = "2", default-features = false, features = ["wry"] }
tokio = { version = "1", features = ["net", "rt-multi-thread", "sync"] }
