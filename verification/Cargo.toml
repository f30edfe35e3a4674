[package]
name = "secret_book_server"
version = "0.1.0"
edition = "2021"
publish = false

[dependencies]
uuid = { version = "1", features = ["v4"] }
serde = { version = "1", features = ["derive"] }
anyhow = "1"
thiserror = "1"
config = "*"
tokio = { version = "1", features = ["macros", "rt-multi-thread"] }
actix-web = "4"
actix-cors = "*"
tracing = "0.1"
tracing-actix-web = "*"
tracing-appender = "*"
tracing-bunyan-formatter = "*"
tracing-subscriber = { version = "0.3", features = ["env-filter"] }
