[package]
name = "gitdis"
version = "0.1.0"
edition = "2021"
publish = false

[dependencies]
valu3 = "*"
serde_yaml = "*"
serde_json = "*"
serde = { version = "*", features = ["derive"] }
log = "*"
env_logger = "*"
tokio = { version = "*", features = ["rt-multi-thread", "macros", "net", "time", "sync"] }
axum = "*"
regex = "*"
pest = "*"
pest_derive = "*"
