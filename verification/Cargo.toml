[package]
name = "doist"
version = "0.1.0"
edition = "2021"
publish = false

[dependencies]
chrono = { version = "=0.4.45", features = ["serde"] }
serde = { version = "=1.0.229", features = ["derive"] }
serde_json = "=1.0.151"
serde_repr = "=0.1.21"
url = { version = "=2.5.8", features = ["serde"] }
reqwest = { version = "=0.12.28", default-features = false, features = ["json"] }
clap = { version = "=4.6.7", features = ["derive"] }
uuid = { version = "=1.27.0", features = ["v4"] }
