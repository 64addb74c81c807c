[package]
name = "ferron-language-server"
version = "0.1.0"
edition = "2021"
publish = false

[dependencies]
async-compression = { version = "0.4", features = ["gzip", "tokio"] }
async_zip = { version = "0.0.17", features = ["deflate", "tokio"] }
clap = { version = "4", features = ["derive"] }
dirs = "*"
ferronconf = "*"
futures-util = { version = "0.3", features = ["io"] }
reqwest = { version = "0.12", default-features = false, features = ["rustls-tls"] }
sanitize-filename = "*"
serde = { version = "1", features = ["derive"] }
serde_json = "1"
tokio = { version = "1", features = ["full"] }
tokio-tar = "0.3"
tokio-util = { version = "0.7", features = ["compat"] }
tower-lsp = "0.20"
