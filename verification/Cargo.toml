[package]
name = "md_server"
version = "0.1.0"
edition = "2021"
publish = false

[dependencies]
markdown = "1"
serde_yml = "*"
chrono = "0.4"
percent-encoding = "2"
tokio = { version = "1", features = ["full"] }
axum = "*"
maud = "*"
mime_guess = "2"
tokio-util = { version = "*", features = ["io"] }
anyhow = "1"
clap = { version = "4", features = ["derive", "env"] }
dotenvy = "*"
tracing = "0.1"
tracing-subscriber = { version = "0.3", features = ["env-filter"] }
serde = { version = "1", features = ["derive"] }
thiserror = "*"
tower-http = { version = "*", features = ["trace", "catch-panic"] }
rand = "*"
