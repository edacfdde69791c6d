[package]
name = "habitus"
version = "0.1.0"
edition = "2021"
publish = false

[dependencies]
anyhow = "1"
chrono = "0.4"
clap = { version = "4", features = ["derive"] }
crossterm = "0.28"
csv = "1"
ratatui = "0.29"
rusqlite = { version = "0.32", features = ["bundled"] }
