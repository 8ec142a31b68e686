[package]
name = "traffic"
version = "0.1.0"
edition = "2021"
publish = false

[dependencies]
chrono = "0.4"
serde = { version = "1", features = ["derive"] }
serde_json = "1"
futures = "0.1"
tokio-core = "0.1"
reqwest = { version = "0.9", default-features = false, features = ["rustls-tls"] }
structopt = "0.2"
keyring = "*"
rpassword = "*"
preferences = "*"
