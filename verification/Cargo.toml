[package]
name = "grading"
version = "0.1.0"
edition = "2021"
publish = false

[dependencies]
csv = "=1.4.0"
serde = { version = "=1.0.229", features = ["derive"] }
serde_json = "=1.0.154"
anyhow = "=1.0.104"
tokio = { version = "=1.54.1", features = ["fs", "rt", "macros"] }
dioxus = "=0.7.10"
rfd = { version = "=0.17.2", default-features = false, features = ["xdg-portal"] }
sqlx = { version = "=0.8.6", default-features = false, features = ["sqlite", "runtime-tokio", "migrate", "macros"] }
