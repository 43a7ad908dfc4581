[package]
name = "keysweep"
version = "0.1.0"
edition = "2021"
publish = false

[dependencies]
clap = { version = "*", features = ["derive"] }
dotenv = "*"
env_logger = "*"
log = "*"
redis = "*"
reqwest = { version = "*", default-features = false }
serde = { version = "*", features = ["derive"] }
serde_json = "*"
serde_yaml = "*"
tera = "*"
tokio = { version = "*", features = ["macros", "rt-multi-thread"] }
