[package]
name = "clockin"
version = "0.1.0"
edition = "2021"
publish = false

[dependencies]
anyhow = "=1.0.104"
base64 = "=0.23.1"
chrono = "=0.4.45"
chrono-tz = "=0.10.4"
dotenvy = "=0.15.7"
reqwest = { version = "=0.13.5", default-features = false, features = ["json", "form"] }
scraper = "=0.27.0"
serde = { version = "=1.0.229", features = ["derive"] }
serde_json = "=1.0.151"
tokio = { version = "=1.53.2", features = ["rt-multi-thread", "macros", "time", "sync"] }
uuid = { version = "=1.27.0", features = ["v4"] }
