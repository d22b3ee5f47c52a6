[package]
name = "terminox"
version = "0.1.0"
edition = "2021"
publish = false

[dependencies]
uuid = { version = "=1.29.0", features = ["v4"] }
dirs = "=5.0.1"
russh = "=0.45.0"
russh-keys = "=0.45.0"
russh-sftp = "=2.4.0"
tokio = { version = "=1.54.1", features = ["full"] }
anyhow = "=1.0.104"
async-trait = "=0.1.92"
log = "=0.4.35"
serde = { version = "=1.0.229", features = ["derive"] }
