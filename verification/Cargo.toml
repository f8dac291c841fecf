[package]
name = "openjev"
version = "0.1.0"
edition = "2021"
publish = false

[dependencies]
serde = { version = "=1.0.229", features = ["derive"] }
serde_json = "=1.0.154"
chrono = "=0.4.45"
clap = { version = "=4.6.7", features = ["derive"] }
tokio = { version = "=1.54.1", features = ["rt-multi-thread", "macros", "net", "sync"] }
axum = "=0.7.9"
reqwest = { version = "=0.12.28", default-features = false, features = ["blocking", "json"] }
hf-hub = { version = "=1.0.0", features = ["blocking"] }
llama-cpp-2 = "=0.1.160"
llama-cpp-sys-2 = "=0.1.160"
