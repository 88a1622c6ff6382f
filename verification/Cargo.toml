[package]
name = "octomap"
version = "0.1.0"
edition = "2021"
publish = false

[dependencies]
futures = "0.3"
r2r = "*"
tokio = { version = "1", features = ["macros", "rt-multi-thread", "signal", "time"] }
