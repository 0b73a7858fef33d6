[package]
name = "chat_store"
version = "0.1.0"
edition = "2021"
publish = false

[dependencies]
base64 = "=0.23.1"
chrono = { version = "=0.4.45", features = ["serde"] }
serde = { version = "*", features = ["derive"] }
diesel = { version = "=2.3.14", features = ["sqlite", "r2d2", "chrono"] }
libsqlite3-sys = { version = "*", features = ["bundled"] }
dotenvy = "*"
tokio = { version = "*", features = ["rt-multi-thread", "macros", "net"] }
axum = "=0.8.9"
async-graphql = { version = "=7.2.1", features = ["chrono"] }
async-graphql-axum = "*"
