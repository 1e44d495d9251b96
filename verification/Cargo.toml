[package]
name = "hls2dash"
version = "0.1.0"
edition = "2021"
publish = false

[dependencies]
anyhow = "1"
axum = "0.7"
bytes = "1"
chrono = "0.4"
futures = "0.3"
m3u8-rs = "6"
moka = { version = "0.11", features = ["future"] }
reqwest = { version = "0.12", default-features = false, features = ["rustls-tls", "gzip", "deflate", "stream"] }
thiserror = "1"
tokio = { version = "1", features = ["rt-multi-thread", "macros", "net", "process", "io-util", "fs"] }
tower-http = { version = "0.5", features = ["cors", "trace"] }
tracing = "0.1"
tracing-subscriber = { version = "0.3", features = ["env-filter"] }
url = "2"
