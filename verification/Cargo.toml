[package]
name = "dilbert"
version = "0.1.0"
edition = "2021"
rust-version = "1.95"
publish = false

[dependencies]
scraper = "=0.29.0"
url = "=2.5.8"
reqwest = "=0.12.28"
tokio = { version = "=1.54.1", features = ["macros", "rt-multi-thread", "time"] }
teloxide = { version = "=0.17.0", features = ["macros"] }
# Not called by this crate. teloxide depends on it, and from 0.1.2 on it asks
# for rustc 1.96; this line holds it to the last version that builds with 1.95.
takecell = "=0.1.1"
anyhow = "=1.0.104"
log = "=0.4.34"
env_logger = "=0.11.11"
