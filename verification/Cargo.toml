[package]
name = "plan_path"
version = "0.1.0"
edition = "2021"
publish = false

[dependencies]
axum = "=0.8.9"
dotenvy = "=0.15.7"
reqwest = { version = "=0.12.28", default-features = false, features = ["json"] }
serde = { version = "=1.0.229", features = ["derive"] }
serde_json = "=1.0.154"
tokio = { version = "=1.54.1", features = ["macros", "rt-multi-thread", "net"] }
