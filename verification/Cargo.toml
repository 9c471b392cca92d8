[package]
name = "repartizare"
version = "0.1.0"
edition = "2021"
publish = false

[dependencies]
scraper = "*"
titlecase = "*"
serde = { version = "*", features = ["derive"] }
serde_json = "*"
reqwest = { version = "*", default-features = false, features = ["json"] }
tokio = { version = "*", features = ["rt-multi-thread", "macros", "net"] }
axum = "*"
clap = { version = "*", features = ["derive"] }
futures = "*"
sqlx = { version = "*", default-features = false, features = ["sqlite", "runtime-tokio", "macros"] }
