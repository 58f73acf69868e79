[package]
name = "mudras"
version = "0.1.0"
edition = "2021"
publish = false

[dependencies]
bon = "*"
clap = { version = "4", features = ["derive"] }
clap-verbosity-flag = { version = "*", features = ["tracing"] }
dirs = "*"
env_logger = "*"
evdev = { version = "*", features = ["tokio"] }
futures = "0.3"
knus = "*"
log = "0.4"
miette = { version = "*", features = ["fancy"] }
pipelight_exec = "*"
serde = { version = "1", features = ["derive"] }
signal-hook = "*"
signal-hook-async-std = "*"
thiserror = "*"
tokio = { version = "1", features = ["rt-multi-thread", "macros", "sync", "time"] }
tokio-stream = "*"
tokio-udev = "*"
tracing = "0.1"
tracing-subscriber = { version = "*", features = ["env-filter"] }
