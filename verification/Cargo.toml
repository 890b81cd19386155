[package]
name = "fast_server"
version = "0.1.0"
edition = "2021"
publish = false

[dependencies]
anyhow = "=1.0.104"
compio = { version = "=0.19.2", features = ["macros", "net", "io"] }
dotenvy = "=0.15.7"
