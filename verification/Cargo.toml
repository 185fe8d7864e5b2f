[package]
name = "cloudmon_metrics"
version = "0.1.0"
edition = "2021"
publish = false

[dependencies]
axum = "0.5"
chrono = "0.4"
evalexpr = "7.2"
jemallocator = "0.5"
new_string_template = "1"
regex = "1"
reqwest = { version = "0.11", default-features = false, features = ["json", "rustls-tls"] }
serde = { version = "1", features = ["derive"] }
serde_json = "1"
serde_yaml = "0.8"
tokio = { version = "1", features = ["full"] }
tower = "0.4"
tower-http = { version = "0.3", features = ["trace"] }
tracing = "0.1"
tracing-subscriber = { version = "0.3", features = ["env-filter"] }
