[package]
name = "opendeck"
version = "0.1.0"
edition = "2021"
publish = false

[dependencies]
base64 = "=0.22.1"
image = { version = "=0.25.10", default-features = false, features = ["gif", "jpeg", "png"] }
serde = { version = "=1.0.229", features = ["derive"] }
serde_json = "=1.0.154"
tokio = { version = "=1.54.1", features = ["rt-multi-thread", "time", "sync", "macros"] }
log = "=0.4.35"
anyhow = "=1.0.104"

[dev-dependencies]
gif = "=0.14.2"
