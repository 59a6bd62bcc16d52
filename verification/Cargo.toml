[package]
name = "amazon_pricing"
version = "0.1.0"
edition = "2021"
publish = false

[dependencies]
docopt = "1"
regex = "1"
reqwest = "0.12"
serde = { version = "1", features = ["derive"] }
tokio = { version = "1", features = ["macros", "rt-multi-thread"] }
