[package]
name = "ecs-cluster-discovery"
version = "0.1.0"
edition = "2021"
publish = false

[dependencies]
aws-config = { version = "1", features = ["behavior-version-latest"] }
aws-sdk-ecs = "1"
ipnet = "2"
serde = { version = "1", features = ["derive"] }
serde_derive = "1"
serde_json = "1"
thiserror = "1"
tokio = { version = "1", features = ["fs", "macros", "rt", "time"] }
tracing = "0.1"
