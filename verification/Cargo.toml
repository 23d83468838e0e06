[package]
name = "vortice"
version = "0.1.0"
edition = "2021"
publish = false

[dependencies]
bytes = "1"
getrandom = "0.3"
http = "1"
rustls-pemfile = "2"
tokio = { version = "1", features = ["io-util", "net", "rt", "macros", "time"] }
tokio-rustls = { version = "0.26", default-features = false, features = ["ring", "tls12"] }
hyper = { version = "1", features = ["http1", "server"] }
hyper-util = { version = "0.1", features = ["tokio"] }
axum = { version = "0.8", default-features = false, features = ["http1", "tokio"] }
tracing = "0.1"
