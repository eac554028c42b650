[package]
name = "quic_websocket"
version = "0.1.0"
edition = "2021"
publish = false

[dependencies]
anyhow = "1"
base64 = "0.21"
bytes = "1"
clap = { version = "4", features = ["derive"] }
h3 = "0.0.4"
h3-quinn = "0.0.5"
http = "1"
quinn = "0.10"
rand = "0.8"
rustls = "0.21"
rustls-pemfile = "1"
serde_json = "1"
sha1 = "0.10"
tokio = { version = "1", features = ["full"] }
tracing = "0.1"
tracing-subscriber = "0.3"
uuid = { version = "1", features = ["v4"] }
