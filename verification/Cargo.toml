[package]
name = "playground"
version = "0.1.0"
edition = "2021"
publish = false

[dependencies]
actix-web = "4"
log = "0.4"
polars = { version = "*", features = ["serde"] }
rand = "0.8"
serde = { version = "1", features = ["derive"] }
serde_json = "1"
tokio = { version = "1", features = ["macros", "rt-multi-thread"] }
