[package]
name = "stream_observer"
version = "0.1.0"
edition = "2021"
publish = false

[dependencies]
anyhow = "=1.0.104"
clap = { version = "=4.6.7", features = ["derive"] }
crossterm = "=0.29.0"
llama-cpp-2 = { version = "=0.1.150", default-features = false }
ratatui = "=0.30.2"
serde_json = "=1.0.154"
tachyonfx = "=0.25.2"
tracing = "=0.1.44"
tracing-appender = "=0.2.5"
tracing-subscriber = { version = "=0.3.23", features = ["json", "env-filter"] }
