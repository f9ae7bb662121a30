[package]
name = "nanovllm"
version = "0.1.0"
edition = "2021"
publish = false

[dependencies]
axum = "*"
candle-core = "*"
candle-nn = "*"
cudarc = { version = "*", default-features = false, features = ["std", "driver", "nvrtc", "nccl", "cuda-12080", "fallback-dynamic-loading"] }
half = "*"
indicatif = "*"
minijinja = "*"
minijinja-contrib = { version = "*", features = ["pycompat"] }
numpy = "*"
pyo3 = "*"
reqwest = { version = "*", default-features = false, features = ["json"] }
serde = { version = "*", features = ["derive"] }
serde_json = "*"
tokenizers = { version = "*", default-features = false, features = ["fancy-regex"] }
tokio = { version = "*", features = ["rt-multi-thread", "macros", "net", "sync"] }
xxhash-rust = { version = "*", features = ["xxh64"] }
