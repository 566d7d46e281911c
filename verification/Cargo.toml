[package]
name = "lanfile"
version = "0.1.0"
edition = "2021"
publish = false

[dependencies]
async_zip = { version = "*", features = ["tokio"] }
arc-swap = "*"
bytes = "*"
chrono = "*"
futures-lite = "*"
futures-util = "*"
hashbrown = "*"
if-addrs = "*"
memchr = "*"
mimalloc = "*"
rustc-hash = "*"
rustix = { version = "*", features = ["fs", "net", "time"] }
salvo = { version = "*", features = ["serve-static"] }
serde = { version = "*", features = ["derive"] }
serde_json = "*"
tokio = { version = "*", features = ["full"] }
tracing = "*"
tracing-subscriber = { version = "*", features = ["env-filter"] }
