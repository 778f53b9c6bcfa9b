[package]
name = "zerosyntax"
version = "0.1.0"
edition = "2021"
publish = false

[dependencies]
anyhow = "=1.0.104"
dashmap = "=6.2.1"
glam = "=0.29.3"
image = { version = "=0.25.10", default-features = false, features = ["dds", "png", "tga"] }
percent-encoding = "=2.3.2"
ropey = "=1.6.1"
rowan = "=0.17.0"
serde = { version = "=1.0.229", features = ["derive"] }
serde_json = "=1.0.154"
tokio = { version = "=1.54.1", features = ["rt-multi-thread", "macros", "io-std", "sync", "time"] }
tower-lsp = "=0.20.0"
tracing = "=0.1.44"
walkdir = "=2.5.0"
