[package]
name = "penoxy"
version = "0.1.0"
edition = "2021"
publish = false

[dependencies]
quinn = "=0.11.12"
serde_yml = "=0.0.4"
tokio = { version = "=1.54.1", features = ["io-util", "macros", "net", "rt-multi-thread", "sync", "time"] }
tracing = "=0.1.44"
tracing-appender = "=0.2.5"
tracing-subscriber = "=0.3.23"
