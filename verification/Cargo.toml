[package]
name = "redis_tls_proxy"
version = "0.1.0"
edition = "2021"
publish = false

[dependencies]
bytes = "*"
clap = { version = "*", features = ["derive"] }
rustls = "*"
rustls-pemfile = "*"
thiserror = "*"
tokio = { version = "*", features = ["full"] }
tokio-rustls = "*"
tracing = "*"
tracing-subscriber = { version = "*", features = ["env-filter", "fmt"] }
webpki-roots = "*"
