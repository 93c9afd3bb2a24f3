[package]
name = "context_rs"
version = "0.1.0"
edition = "2021"
publish = false

[dependencies]
anyhow = "=1.0.104"
arboard = "=3.7.0"
clap = { version = "=4.6.7", features = ["derive"] }
colored = "=3.1.1"
fastembed = { version = "=7.5.0", default-features = false, features = ["ort-load-dynamic", "hf-hub-rustls-tls"] }
ignore = "=0.4.33"
syn = { version = "=2.0.119", features = ["full"] }
