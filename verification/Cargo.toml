[package]
name = "snowchains"
version = "0.1.0"
edition = "2021"
publish = false

[dependencies]
futures = "0.1"
itertools = "0.8"
serde = "1"
serde_derive = "1"
serde_yaml = "0.8"
tokio = "0.1"
tokio-process = "0.2"
tokio-signal = "0.2"
