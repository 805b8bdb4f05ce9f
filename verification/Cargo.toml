[package]
name = "deqp_runner"
version = "0.1.0"
edition = "2021"
publish = false

[dependencies]
rand = "*"
clap = { version = "*", features = ["derive"] }
serde = { version = "*", features = ["derive"] }
serde_json = "*"
serde_yaml = "*"
tokio = { version = "*", features = ["macros", "rt", "process", "io-util", "time", "sync"] }
futures = "*"
genawaiter = "*"
slog = "*"
slog-async = "*"
slog-term = "*"
tempfile = "*"
time = { version = "*", features = ["formatting", "parsing", "macros"] }
