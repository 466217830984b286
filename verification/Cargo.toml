[package]
name = "rag_service"
version = "1.0.0"
edition = "2021"
publish = false

[dependencies]
anyhow = "=1.0.104"
axum = "=0.8.9"
bincode = "=1.3.3"
bytemuck = "=1.25.2"
llama-cpp-2 = "=0.1.160"
lru = "=0.19.0"
serde = { version = "=1.0.229", features = ["derive"] }
serde_json = "=1.0.154"
thiserror = "=2.0.21"
tokio = { version = "=1.54.1", features = ["full"] }
tracing = "=0.1.44"
tracing-subscriber = "=0.3.23"
turbovec = "=1.1.2"
uuid = { version = "=1.29.0", features = ["v4", "serde"] }

[dev-dependencies]
rand = "=0.8.8"
