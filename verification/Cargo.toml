[package]
name = "cluster_agent"
version = "0.1.0"
edition = "2021"
publish = false

[dependencies]
chrono = "*"
regex = "*"
serde_json = "*"
sha2 = "*"
tokio = { version = "*", features = ["full"] }
tokio-util = "*"
tokio-stream = "*"
notify = "*"
notify-debouncer-full = "*"
kube = { version = "*", features = ["client"] }
k8s-openapi = { version = "*", features = ["latest"] }
