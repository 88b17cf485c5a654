[package]
name = "rabbit"
version = "0.1.0"
edition = "2021"
publish = false

[dependencies]
anyhow = "*"
async-tungstenite = { version = "*", features = ["tokio-runtime"] }
futures = "*"
go-flag = "*"
nippy = "*"
rmp-serde = "*"
rustls-pemfile = "*"
serde = "*"
serde_bytes = "*"
serde_derive = "*"
tokio = { version = "*", features = ["rt-multi-thread", "net", "macros", "io-util", "fs", "time"] }
tokio-rustls = "*"
uuid = { version = "*", features = ["v4"] }

[dev-dependencies]
rmpv = "*"
