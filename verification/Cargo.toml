[package]
name = "freetoken"
version = "0.1.0"
edition = "2021"
publish = false

[dependencies]
anyhow = "1"
axum = "0.8"
cudarc = { version = "0.16", default-features = false, features = ["std", "driver", "nvrtc", "cuda-12040", "dynamic-loading"] }
futures = "0.3"
half = "2"
memmap2 = "0.9"
rayon = "1"
serde = { version = "1", features = ["derive"] }
serde_json = "1"
tokio = { version = "1", features = ["rt-multi-thread", "net", "sync"] }
