[package]
name = "basm"
version = "0.1.0"
edition = "2021"

[dependencies]
ahash = "=0.8.12"
dashmap = "=6.2.1"
string-interner = "=0.20.0"
tokio = { version = "=1.54.1", features = ["io-std", "macros", "rt-multi-thread"] }
tower-lsp = "=0.20.0"
tracing = "=0.1.44"
tracing-appender = "=0.2.5"
tracing-subscriber = "=0.3.23"
