[package]
name = "composer_lsp"
version = "0.1.0"
edition = "2021"
publish = false

[dependencies]
dashmap = "5"
futures = "0.3"
log = "0.4"
log4rs = "1"
reqwest = "0.11"
ropey = "1"
semver = "1"
serde_json = "1"
tokio = { version = "1", features = ["full"] }
tower-lsp = "0.20"
webbrowser = "0.8"
