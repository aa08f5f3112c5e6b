[package]
name = "eccer"
version = "0.1.0"
edition = "2021"
publish = false

[dependencies]
anyhow = "1"
async-stream = "0.3"
axum = "0.6"
chrono = "0.4"
etcd-client = "0.12"
futures-core = "0.3"
futures-util = "0.3"
nats = "0.24"
reqwest = { version = "0.11", default-features = false }
serde = { version = "1", features = ["derive"] }
structopt = "0.3"
thiserror = "1"
tokio = { version = "1", features = ["macros", "rt-multi-thread", "time"] }
tracing = "0.1"
tracing-subscriber = "0.3"
url = "2"
