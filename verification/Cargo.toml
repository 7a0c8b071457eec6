[package]
name = "subnet_monitor"
version = "0.1.0"
edition = "2021"
publish = false

[dependencies]
tokio = { version = "1", features = ["macros", "process", "rt", "sync", "time"] }
