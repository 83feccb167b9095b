[package]
name = "music_catalog"
version = "0.1.0"
edition = "2021"
publish = false

[dependencies]
mp3-metadata = "=0.4.0"
serde = { version = "=1.0.229", features = ["derive"] }
serde_json = "=1.0.151"
tokio = { version = "=1.53.2", features = ["macros", "rt-multi-thread", "sync"] }
warp = { version = "=0.4.3", features = ["server"] }
