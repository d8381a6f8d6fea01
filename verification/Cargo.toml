[package]
name = "office_audit_collector"
version = "0.1.0"
edition = "2021"
publish = false

[dependencies]
lru = { version = "=0.18.5", default-features = false }
chrono = "=0.4.45"
serde_json = "=1.0.151"
serde = "*"
serde_derive = "*"
serde_yaml = "*"
tokio = { version = "*", features = ["rt-multi-thread", "macros", "time", "sync"] }
reqwest = { version = "*", default-features = false }
futures = "*"
async-trait = "*"
clap = { version = "*", features = ["derive"] }
anyhow = "*"
log = "*"
simple-logging = "*"
