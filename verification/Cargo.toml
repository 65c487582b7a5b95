[package]
name = "jmapsyncd"
version = "0.1.0"
edition = "2021"
publish = false

[dependencies]
anyhow = "1"
chrono = "0.4"
clap = { version = "4", features = ["derive", "env"] }
dirs = "*"
fs2 = "0.4"
futures-util = "0.3"
globset = "0.4"
hostname = "*"
jmap-client = "0.4.2"
log = "0.4"
mailparse = "*"
notify = "*"
rusqlite = { version = "*", features = ["bundled"] }
serde = { version = "1", features = ["derive"] }
serde_json = "1"
tokio = { version = "1", features = ["full"] }
tokio-util = "0.7"
toml = "*"
ulid = "*"
uuid = { version = "1", features = ["v4"] }
