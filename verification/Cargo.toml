[package]
name = "pomodoro_cli"
version = "0.1.0"
edition = "2021"
publish = false

[dependencies]
time = "*"
anyhow = "*"
clap = { version = "*", features = ["derive"] }
ctrlc = "*"
directories = "*"
indicatif = "*"
notify-rust = "*"
serde = { version = "*", features = ["derive"] }
serde_json = "*"
serde_yaml = "*"
tokio = { version = "*", features = ["rt-multi-thread", "macros", "time"] }
tracing = "*"
tracing-subscriber = { version = "*", features = ["env-filter"] }
