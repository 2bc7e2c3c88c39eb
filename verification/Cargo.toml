[package]
name = "pathprobe"
version = "0.1.0"
edition = "2021"
publish = false

[dependencies]
async-recursion = "1"
futures = "0.3"
reqwest = { version = "0.11", default-features = false, features = ["stream"] }
tokio = { version = "1", features = ["macros", "rt-multi-thread"] }
