[package]
name = "kube_dump"
version = "0.1.0"
edition = "2021"
publish = false

[dependencies]
anyhow = "=1.0.104"
async-trait = "=0.1.92"
clap = { version = "=4.6.7", features = ["derive"] }
http = "=1.5.0"
k8s-openapi = { version = "=0.28.0", features = ["latest"] }
kube = "=4.2.0"
serde = { version = "=1.0.229", features = ["derive"] }
serde_json = "=1.0.151"
tokio = { version = "=1.53.2", features = ["fs", "process", "macros", "rt-multi-thread"] }
