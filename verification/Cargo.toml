[package]
name = "recursive_scraper"
version = "0.1.0"
edition = "2021"
publish = false

[dependencies]
anyhow = "=1.0.104"
bytes = "=1.12.1"
clap = { version = "=4.6.7", features = ["derive"] }
env_logger = "=0.11.11"
futures = "=0.3.34"
log = "=0.4.34"
regex = "=1.13.1"
reqwest = { version = "=0.13.5", default-features = false }
select = "=0.6.1"
tokio = { version = "=1.53.2", features = ["rt-multi-thread", "macros", "time", "fs", "io-util"] }
url = "=2.5.8"

[dev-dependencies]
toml = "=1.1.7"
