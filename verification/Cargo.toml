[package]
name = "patcherd"
version = "0.1.0"
edition = "2021"
publish = false

[dependencies]
memchr = "2"
hex = "0.4"
sha2 = "0.10"
serde = { version = "1", features = ["derive"] }
serde_json = "1"
clap = { version = "4", features = ["derive"] }
anyhow = "1"
tracing = "0.1"
tracing-subscriber = "0.3"
tokio = { version = "1", features = ["macros", "rt-multi-thread"] }
warp = { version = "0.3", features = ["tls"] }
kube = { version = "*", default-features = false, features = ["client", "admission", "rustls-tls"] }
k8s-openapi = { version = "*", features = ["latest"] }
json-patch = "*"
