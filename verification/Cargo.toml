[package]
name = "httpkit"
version = "0.1.0"
edition = "2021"
publish = false

[dependencies]
bytes = "*"
chrono = "*"
crossbeam = "*"
dotenvy = "*"
flate2 = "*"
rustls = { version = "*", default-features = false, features = ["ring", "std", "tls12", "logging"] }
rustls-pemfile = "*"
serde = { version = "*", features = ["derive"] }
serde_json = "*"
tokio = { version = "*", features = ["full"] }
tokio-rustls = { version = "*", default-features = false, features = ["ring", "tls12"] }
tracing = "*"
tracing-appender = "*"
tracing-subscriber = { version = "*", features = ["fmt", "json", "registry", "std"] }
uuid = { version = "*", features = ["v4"] }
