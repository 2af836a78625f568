[package]
name = "sorby"
version = "0.1.0"
edition = "2021"
publish = false

[dependencies]
anyhow = "1"
clap = { version = "4", features = ["derive"] }
nix = { version = "0.29", features = ["fs", "hostname", "mount", "process", "sched", "signal", "user"] }
tracing = "0.1"
tracing-subscriber = { version = "0.3", features = ["env-filter"] }
