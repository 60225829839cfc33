[package]
name = "db_sight_core"
version = "0.1.0"
edition = "2021"
publish = false

[dependencies]
uuid = { version = "=1.27.0", features = ["v4"] }
keyring = "=4.2.0"
keyring-core = "=1.0.0"
sqlx = { version = "=0.9.0", default-features = false, features = ["mysql", "runtime-tokio", "chrono", "json"] }
chrono = { version = "=0.4.45", default-features = false, features = ["std"] }
serde = { version = "=1.0.229", features = ["derive"] }
serde_json = "=1.0.151"
tokio = { version = "=1.53.2", features = ["rt-multi-thread", "sync", "macros"] }
dirs = "=7.0.0"
async-trait = "=0.1.92"
anyhow = "=1.0.104"
thiserror = "=2.0.21"
toml = "=1.1.6"
locale_config = "=0.3.0"
