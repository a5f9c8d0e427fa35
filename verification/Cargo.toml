[package]
name = "postgresql_archive"
version = "0.1.0"
edition = "2021"
publish = false

[dependencies]
anyhow = "=1.0.104"
bytes = "=1.12.1"
flate2 = "=1.1.10"
reqwest = { version = "=0.13.5", default-features = false, features = ["json"] }
serde = { version = "=1.0.229", features = ["derive"] }
target-triple = "=1.0.1"
tokio = { version = "=1.53.2", default-features = false, features = ["rt", "rt-multi-thread"] }
zip = { version = "=8.6.0", default-features = false, features = ["deflate"] }

[dev-dependencies]
tar = "=0.4.46"
