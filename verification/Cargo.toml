[package]
name = "gabion"
version = "0.1.0"
edition = "2021"
publish = false

[dependencies]
anyhow = "=1.0.104"
clap = { version = "=4.6.7", features = ["derive"] }
envoy-types = "=0.7.7"
futures = "=0.3.34"
hmac = "=0.12.1"
humantime = "=2.4.0"
humantime-serde = "=1.1.1"
k8s-openapi = { version = "=0.29.0", features = ["latest"] }
kube = { version = "=5.0.0", default-features = false, features = ["client"] }
serde = { version = "=1.0.229", features = ["derive"] }
serde_json = "=1.0.154"
serde_yaml = "=0.9.34"
sha2 = "=0.10.9"
thiserror = "=2.0.21"
tokio = { version = "=1.54.1", features = ["full", "test-util"] }
tonic = "=0.14.9"
tracing = "=0.1.44"
twox-hash = "=2.1.5"
