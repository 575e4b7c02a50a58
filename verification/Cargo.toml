[package]
name = "traefik_guard"
version = "0.1.0"
edition = "2021"
publish = false

[dependencies]
ipnetwork = { version = "0.20", default-features = false }
anyhow = "1"
atty = "0.2"
axum = "0.6"
chrono = "0.4"
clap = { version = "4", features = ["derive", "env"] }
color-eyre = "0.6"
forwarded-header-value = "0.1"
lazy_static = "1"
maxminddb = "0.23"
prometheus = "0.13"
serde = { version = "1", features = ["derive"] }
tokio = { version = "1", features = ["full"] }
tower-http = { version = "0.4", features = ["cors", "limit", "trace"] }
tracing = "0.1"
tracing-error = "0.2"
tracing-subscriber = { version = "0.3", features = ["env-filter"] }
utoipa = { version = "3", features = ["axum_extras"] }
