[package]
name = "valkey-rdb-tools"
version = "0.1.0"
edition = "2021"
publish = false

[dependencies]
arrow = { version = "55", features = ["pyarrow"] }
arrow-csv = "55"
arrow-json = "55"
parquet = "55"
clap = { version = "4", features = ["derive"] }
glob-match = "0.2"
serde_json = "1"
pyo3 = { version = "0.24", features = ["extension-module", "abi3-py39"] }

[dev-dependencies]
bytes = "1"
