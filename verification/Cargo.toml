[package]
name = "orderbook-aggregator"
version = "0.1.0"
edition = "2021"
publish = false

[dependencies]
arrayvec = "0.7"
axum = "0.8"
clap = { version = "4", features = ["derive", "env"] }
crossterm = "0.28"
fastrand = "2"
futures-util = { version = "0.3", features = ["sink"] }
libc = "0.2"
memchr = "2"
prost = "0.13"
ratatui = "0.29"
tokio = { version = "1", features = ["full"] }
tokio-stream = { version = "0.1", features = ["net", "sync"] }
tokio-tungstenite = { version = "0.24", features = ["rustls-tls-webpki-roots"] }
tokio-util = "0.7"
tonic = "0.12"
tracing = "0.1"
tracing-subscriber = { version = "0.3", features = ["env-filter"] }
