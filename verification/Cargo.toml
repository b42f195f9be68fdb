[package]
name = "iris"
version = "0.1.0"
edition = "2021"
publish = false

[dependencies]
blake3 = "=1.8.7"
anyhow = "1"
clap = { version = "4", features = ["derive"] }
tracing-subscriber = { version = "0.3", features = ["env-filter"] }
arrow-schema = "=59.3.2"
arrow-array = { version = "=59.3.2", features = ["ffi"] }
async-trait = "0.1"
futures = "0.3"
thiserror = "2"
tokio = { version = "1", features = ["rt"] }
datafusion = { version = "=55.2.0", default-features = false }
serde = { version = "1", features = ["derive"] }
duckdb = { version = "*", default-features = false, features = ["loadable-extension", "vtab-arrow"] }
