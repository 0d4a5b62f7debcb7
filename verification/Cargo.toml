[package]
name = "proc_siding_lib"
version = "0.1.0"
edition = "2021"
publish = false

[dependencies]
prometheus = "0.13"
serde = { version = "1", features = ["derive"] }
serde_json = "1"
thiserror = "*"
toml = "*"
clap = { version = "4", features = ["derive", "env"] }
tracing = "0.1"
tracing-subscriber = { version = "0.3", features = ["json"] }
