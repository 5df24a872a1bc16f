[package]
name = "office_scheduler"
version = "0.1.0"
edition = "2021"
publish = false

[dependencies]
rand = "0.9"
serde = { version = "1", features = ["derive"] }
serde_json = "1"
chrono = "0.4"
anyhow = "1"
rusqlite = { version = "*", features = ["bundled"] }
dirs = "*"
rust_xlsxwriter = "*"
