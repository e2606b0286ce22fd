[package]
name = "scm_core"
version = "0.1.0"
edition = "2021"
publish = false

[dependencies]
rust-crypto = "=0.2.36"
esl01-dag = { version = "=0.3.0", default-features = false }
anyhow = "=1.0.104"
bytes = "=1.12.1"
clap = "=2.34.0"
futures = "=0.3.34"
once_cell = "=1.21.4"
slog = "=2.8.2"
tokio = { version = "=1.54.1", features = ["rt-multi-thread"] }
