[package]
name = "manager-core"
version = "0.1.0"
edition = "2021"
publish = false

[dependencies]
blake3 = "=1.8.7"
serde = { version = "=1.0.229", features = ["derive"] }
tokio = { version = "=1.54.1", features = ["rt", "rt-multi-thread", "sync", "macros", "fs", "io-util", "time", "net"] }
async-trait = "=0.1.92"
zip = { version = "=2.6.1", default-features = false, features = ["deflate"] }
tar = "=0.4.46"
flate2 = "=1.1.10"
tempfile = "=3.27.0"
notify = "=8.2.1"
trash = "=5.2.9"
russh = "*"
russh-sftp = "*"

[dev-dependencies]
serde_json = "=1.0.154"
