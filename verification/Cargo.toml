[package]
name = "dashboard"
version = "0.1.0"
edition = "2021"
publish = false

[dependencies]
axum = { version = "=0.7.9", features = ["macros"] }
chrono = { version = "=0.4.45", default-features = false, features = ["std", "serde"] }
leptos = { version = "=0.6.15", features = ["ssr"] }
leptos_meta = { version = "=0.6.15", features = ["ssr"] }
leptos_router = { version = "=0.6.15", features = ["ssr"] }
reqwest = { version = "=0.12.28", default-features = false, features = ["rustls-tls"] }
serde = { version = "1", features = ["derive"] }
serde_derive = "1"
sqlx = { version = "=0.8.6", default-features = false, features = ["runtime-tokio", "sqlite", "chrono", "derive"] }
tokio = { version = "1", features = ["rt", "time", "sync", "macros"] }
url = { version = "=2.5.8", features = ["serde"] }
