[package]
name = "immich_album_sync"
version = "0.1.0"
edition = "2021"
publish = false

[dependencies]
serde = { version = "1", features = ["derive"] }
serde_json = "1"
thiserror = "*"
chrono = "0.4"
dirs = "*"
reqwest = { version = "0.12", default-features = false, features = ["blocking", "json"] }
