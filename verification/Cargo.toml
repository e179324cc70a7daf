[package]
name = "zalezhnosti"
version = "0.1.0"
edition = "2021"
publish = false

[dependencies]
semver = "1"
pep440_rs = "0.7"
pep508_rs = "0.9"
percent-encoding = "2"
serde = { version = "1", features = ["derive"] }
serde_json = "1"
reqwest = { version = "0.12", default-features = false, features = ["json", "rustls-tls"] }
tokio = { version = "1", features = ["macros", "rt-multi-thread", "sync", "io-std", "io-util"] }
tower-lsp = "0.20"
zed_extension_api = "0.7"
