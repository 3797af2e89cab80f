[package]
name = "rominator"
version = "0.1.0"
edition = "2021"
publish = false

[dependencies]
sanitize-filename = "*"
async_zip = { version = "*", default-features = false, features = ["tokio", "deflate"] }
futures-lite = "*"
reqwest = { version = "*", default-features = false, features = ["stream"] }
serde = { version = "1", features = ["derive"] }
tokio = { version = "1", features = ["fs", "io-util", "rt-multi-thread", "macros"] }
tokio-util = { version = "0.7", features = ["compat"] }
