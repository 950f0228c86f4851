[package]
name = "cex"
version = "0.1.0"
edition = "2021"
publish = false

[dependencies]
actix-web = "4"
actix-ws = "0.3"
dotenvy = "0.15"
serde = { version = "1", features = ["derive"] }
serde_json = "1"
sqlx = { version = "0.8", default-features = false, features = ["postgres", "runtime-tokio", "macros"] }
thiserror = "2"
tokio = { version = "1", features = ["macros", "rt-multi-thread", "sync", "time"] }
