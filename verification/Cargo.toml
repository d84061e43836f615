[package]
name = "zolit"
version = "0.1.0"
edition = "2021"
publish = false

[dependencies]
strsim = "0.11"
regex = "1"
serde = { version = "1", features = ["derive"] }
serde_json = "1"
clap = { version = "4", features = ["derive", "env"] }
rusqlite = { version = "*", features = ["bundled"] }
walkdir = "2"
chrono = "0.4"
reqwest = { version = "*", default-features = false, features = ["json"] }
thiserror = "*"
tracing = "0.1"
tracing-subscriber = { version = "0.3", features = ["env-filter"] }
