[package]
name = "amiga-game-vault"
version = "0.1.0"
edition = "2021"
publish = false

[dependencies]
async-trait = "0.1"
axum = "0.8"
crc32fast = "1"
flate2 = "1"
hex = "0.4"
md-5 = "0.10"
reqwest = { version = "0.12", default-features = false, features = ["rustls-tls"] }
rusqlite = { version = "0.32", features = ["bundled"] }
scraper = "0.20"
serde = { version = "1", features = ["derive"] }
serde_json = "1"
sha1 = "0.10"
tempfile = "3"
tokio = { version = "1", features = ["macros", "rt-multi-thread", "net"] }
zip = { version = "2", default-features = false, features = ["deflate"] }
