[package]
name = "gasbot"
version = "0.1.0"
edition = "2021"
publish = false

[dependencies]
ethers = { version = "=2.0.14", default-features = false }
futures = "=0.3.34"
telegram-bot = "=0.8.0"
tokio = { version = "=1.53.2", features = ["macros", "rt-multi-thread"] }
