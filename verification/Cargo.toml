[package]
name = "docugen"
version = "0.1.0"
edition = "2021"
publish = false

[dependencies]
clap = "*"
log = "0.4"
pretty_env_logger = "*"
reqwest = { version = "*", default-features = false, features = ["rustls-tls"] }
serde = { version = "1", features = ["derive"] }
serde_json = "1"
tokio = { version = "1", features = ["macros", "rt-multi-thread"] }
toml = "*"
