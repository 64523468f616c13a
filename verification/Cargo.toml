[package]
name = "zotero_sync"
version = "0.1.0"
edition = "2021"
publish = false

[dependencies]
md-5 = "0.10"
hex = "0.4"
zip = { version = "*", default-features = false, features = ["deflate"] }
serde = { version = "1", features = ["derive"] }
serde_json = "1"
quick-xml = { version = "*", features = ["serialize"] }
chrono = "0.4"
thiserror = "*"
anyhow = "1"
ahash = "0.8"
parking_lot = "*"
tracing = "0.1"
log = "0.4"
futures-util = "0.3"
tokio = { version = "1", features = ["fs", "io-util", "rt", "macros"] }
reqwest = { version = "*", default-features = false, features = ["stream"] }
reqwest_dav = { version = "*", default-features = false }
