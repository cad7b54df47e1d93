[package]
name = "presunto_e_queijo"
version = "0.1.0"
edition = "2021"
publish = false

[dependencies]
async-stream = "0.3"
bytes = "1"
clap = { version = "4", features = ["derive"] }
cursive = { version = "0.21", default-features = false, features = ["crossterm-backend"] }
futures = "0.3"
futures-buffered = "0.2"
thiserror = "1"
tokio = { version = "1", features = ["full"] }
tracing = "0.1"
tracing-subscriber = { version = "0.3", features = ["env-filter"] }
whoami = "1"
