[package]
name = "codex_mentor"
version = "0.1.0"
edition = "2021"
publish = false

[dependencies]
serde = { version = "1", features = ["derive"] }
serde_json = "1"
notify = "6"
rusqlite = { version = "0.31", features = ["bundled"] }
tauri = { version = "2", default-features = false }
