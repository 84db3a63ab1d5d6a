[package]
name = "mini_rag"
version = "0.1.0"
edition = "2021"
publish = false

[dependencies]
owo-colors = "=4.4.0"
anyhow = "=1.0.104"
tokio = { version = "=1.54.1", features = ["macros", "rt-multi-thread"] }
tracing = "=0.1.44"
tracing-subscriber = { version = "=0.3.23", features = ["env-filter"] }
libsql = { version = "=0.10.0", default-features = false, features = ["core"] }
rig-core = "=0.38.2"
serde_json = "=1.0.154"
kreuzberg = "=4.10.4"
