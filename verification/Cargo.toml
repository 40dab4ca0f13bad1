[package]
name = "analytic_core"
version = "0.1.0"
edition = "2021"
publish = false

[dependencies]
bytes = "=1.12.1"
tokio = { version = "=1.53.2", features = ["sync", "rt", "rt-multi-thread", "macros", "io-util"] }
arrow = "=58.4.0"
object_store = "=0.5.6"
serde = { version = "=1.0.229", features = ["derive"] }
