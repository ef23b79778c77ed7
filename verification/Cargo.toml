[package]
name = "ankiquest"
version = "0.1.0"
edition = "2021"
publish = false

[dependencies]
axum = "0.8"
chrono = "0.4"
chrono-tz = "0.10"
image = { version = "0.25", default-features = false, features = ["jpeg", "png"] }
rusqlite = { version = "*", features = ["bundled"] }
serde = { version = "1", features = ["derive"] }
serde_json = "1"
tokio = { version = "1", features = ["full"] }
ureq = "3"
