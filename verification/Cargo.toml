[package]
name = "dabox"
version = "0.1.0"
edition = "2021"
publish = false

[dependencies]
axum = "*"
dotenvy = "*"
serde = { version = "*", features = ["derive"] }
thiserror = "*"
tokio = { version = "*", features = ["rt-multi-thread", "net", "macros", "sync"] }
tower-http = { version = "*", features = ["cors", "trace"] }
tracing = "*"
tracing-subscriber = { version = "*", features = ["env-filter"] }
