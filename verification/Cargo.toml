[package]
name = "respite"
version = "0.1.0"
edition = "2021"
publish = false

[dependencies]
bytes = "1"
futures = "0.3"
ordered-float = "4"
thiserror = "1"
tokio = { version = "1", features = ["io-util"] }
triomphe = "0.1"
