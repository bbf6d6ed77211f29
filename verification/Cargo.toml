[package]
name = "fpgahog"
version = "0.1.0"
edition = "2021"
publish = false

[dependencies]
chrono = { version = "=0.4.45", features = ["serde"] }
clap = { version = "=4.6.7", features = ["derive"] }
dateparser = "=0.3.1"
duration-str = "=0.21.0"
libc = "=0.2.191"
nix = { version = "=0.31.3", features = ["mount"] }
serde = { version = "=1.0.229", features = ["derive"] }
serde_json = "=1.0.154"
serde_yaml = "=0.9.34"
tokio = { version = "=1.54.1", features = ["rt-multi-thread"] }
zbus_systemd = { version = "=0.26201.0", features = ["systemd1", "zbus-async-tokio"] }
