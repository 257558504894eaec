[package]
name = "packetworks"
version = "0.1.0"
edition = "2021"
publish = false

[dependencies]
anyhow = "1"
confique = { version = "*", default-features = false }
dotenvy = "*"
serde = { version = "1", features = ["derive"] }
strum = { version = "*", features = ["derive"] }
tokio = { version = "1", features = ["full"] }
tracing = "0.1"
tracing-subscriber = { version = "0.3", features = ["json"] }
