[package]
name = "attendance_bot"
version = "0.1.0"
edition = "2021"
publish = false

[dependencies]
tokio = { version = "*", features = ["macros", "rt-multi-thread", "time", "sync"] }
axum = "*"
axum-server = { version = "*", features = ["tls-rustls"] }
reqwest = { version = "*", default-features = false, features = ["rustls-tls"] }
serde = { version = "*", features = ["derive"] }
serde_json = "*"
chrono = "*"
rand = "*"
once_cell = "*"
toml = "*"
sqlx = { version = "*", default-features = false, features = ["runtime-tokio", "sqlite"] }
erased-serde = "*"
