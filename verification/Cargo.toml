[package]
name = "nhl_ranker"
version = "0.1.0"
edition = "2021"
publish = false

[dependencies]
anyhow = "=1.0.104"
chrono = "=0.4.45"
csv = "=1.4.0"
env_logger = "=0.11.11"
itertools = "=0.13.0"
linfa = "=0.8.1"
linfa-bayes = "=0.8.1"
linfa-logistic = "=0.8.1"
linfa-trees = "=0.8.1"
log = "=0.4.34"
ndarray = "=0.16.1"
nhl_api = "=0.8.1"
rand = "=0.8.8"
reqwest = { version = "=0.12.28", default-features = false, features = ["json"] }
rusqlite = { version = "=0.40.2", features = ["bundled"] }
serde = { version = "=1.0.229", features = ["derive"] }
skillratings = "=0.29.2"
tokio = { version = "=1.54.1", features = ["macros", "rt-multi-thread", "time"] }
