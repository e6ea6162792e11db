[package]
name = "dataflow"
version = "0.1.0"
edition = "2021"
publish = false

[dependencies]
uuid = { version = "1", features = ["v4", "serde"] }
names = { version = "0.14", default-features = false }
serde = { version = "1", features = ["derive"] }
serde_json = "1"
log = "0.4"
env_logger = { version = "0.10", default-features = false }
polars = { version = "0.25", default-features = false, features = ["csv-file", "fmt"] }
