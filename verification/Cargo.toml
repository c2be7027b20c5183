[package]
name = "logbench"
version = "0.1.0"
edition = "2021"
publish = false

[dependencies]
env_logger = "0.11"
fern = "0.7"
log = "0.4"
memory-stats = "1"
rand = "0.8"
slog = "2"
slog-async = "2"
slog-json = "2"
slog-term = "2"
tracing = "0.1"
tracing-appender = "0.2"
tracing-subscriber = { version = "0.3", features = ["json", "fmt"] }
winston = "*"
