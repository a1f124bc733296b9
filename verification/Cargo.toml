[package]
name = "x2clip_core"
version = "0.1.0"
edition = "2021"
publish = false

[dependencies]
sha2 = "0.10"
hex = "0.4"
dryoc = "*"
ulid = "1"
rusty-s3 = "*"
ureq = "3"
rusqlite = { version = "*", features = ["bundled"] }
arboard = { version = "3", default-features = false }
dirs = "*"
toml = "*"
serde = { version = "1", features = ["derive"] }
serde_json = "1"
anyhow = "1"
