[package]
name = "pt_listing"
version = "0.1.0"
edition = "2021"
publish = false

[dependencies]
anyhow = "*"
chrono = "*"
log = "*"
reqwest = { version = "=0.13.5", default-features = false, features = ["cookies", "form"] }
scraper = "=0.27.0"
serde = { version = "*", features = ["derive"] }
tokio = { version = "*", features = ["macros", "rt-multi-thread", "time"] }
toml = "*"
tracing-subscriber = "*"
transmission-rpc = "=0.5.0"
