[package]
name = "scallion_vocab"
version = "0.1.0"
edition = "2021"
publish = false

[dependencies]
fastrand = "2"
url = "2"
log = "0.4"
zip = { version = "2", default-features = false, features = ["deflate"] }
rusqlite = { version = "0.32", features = ["bundled"] }
dirs = "5"
serde = { version = "1", features = ["derive"] }
serde_json = "1"
tokio = { version = "1", features = ["time", "rt-multi-thread", "macros"] }
fsrs = "*"
