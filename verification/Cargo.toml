[package]
name = "rinit"
version = "0.1.0"
edition = "2021"
publish = false

[dependencies]
anyhow = "1"
libc = "0.2"
nix = { version = "0.29", features = ["signal", "process", "mount", "fs", "hostname"] }
serde = { version = "1", features = ["derive"] }
thiserror = "1"
tokio = { version = "1", features = ["rt", "macros", "time", "net"] }
toml = "0.8"
tracing = "0.1"
tracing-subscriber = "0.3"
