[package]
name = "pipistrelle"
version = "2.1.2"
edition = "2021"
publish = false

[dependencies]
argon2 = { version = "0.5", features = ["std"] }
bytes = "1"
futures-util = "0.3"
libc = "0.2"
parking_lot = "0.12"
pin-project = "1"
rcgen = "0.13"
rusqlite = { version = "0.32", features = ["bundled"] }
rustls = "0.23"
rustls-pemfile = "2"
rustls-pki-types = "1"
serde = { version = "1", features = ["derive"] }
serde_json = "1"
smallvec = "1"
tokio = { version = "1", features = ["full"] }
tokio-rustls = "0.26"
tokio-tungstenite = "0.24"
tracing = "0.1"
tracing-subscriber = { version = "0.3", features = ["env-filter"] }
webpki-roots = "0.26"
