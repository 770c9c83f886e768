[package]
name = "waste_bot"
version = "0.1.0"
edition = "2021"
publish = false

[dependencies]
chrono = "=0.4.45"
dotenvy = "=0.15.7"
dptree = "=0.5.1"
env_logger = "=0.11.11"
log = "=0.4.34"
reqwest = "=0.12.28"
takecell = "=0.1.1"
teloxide = { version = "=0.17.0", features = ["macros"] }
tokio = { version = "=1.53.2", features = ["macros", "rt-multi-thread", "time"] }
