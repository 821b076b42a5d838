[package]
name = "rweb"
version = "0.1.0"
edition = "2021"
publish = false

[dependencies]
url = "*"
tokio = { version = "*", features = ["full"] }
quinn = { version = "*", default-features = false, features = ["rustls-ring", "runtime-tokio", "log"] }
rustls = { version = "*", default-features = false, features = ["ring", "std", "logging", "tls12"] }
tokio-rustls = { version = "*", default-features = false, features = ["ring", "logging", "tls12"] }
futures = "*"
serde = { version = "*", features = ["derive"] }
serde_json = "*"
log = "*"
