[package]
name = "jigarpich"
version = "0.1.0"
edition = "2021"
publish = false

[dependencies]
csv = "=1.4.0"
rand = "=0.8.8"
teloxide = { version = "=0.12.2", features = ["macros", "webhooks-axum"] }
tokio = { version = "1", features = ["macros", "rt-multi-thread", "time"] }
dashmap = "5"
dptree = "0.3"
log = "0.4"
pretty_env_logger = "0.5"
takecell = "=0.1.1"
