[package]
name = "pact_sse_plugin"
version = "0.1.0"
edition = "2021"
publish = false

[dependencies]
pact-plugin-driver = { version = "=1.2.6", default-features = false }
pact_models = { version = "=1.3.17", default-features = false, features = ["datetime"] }
regex = "=1.13.1"
serde_json = "=1.0.154"
prost-types = "=0.14.4"
tokio = { version = "=1.54.1", features = ["full"] }
tonic = "=0.14.9"
tracing = "=0.1.44"
tracing-appender = "=0.2.5"
tracing-subscriber = { version = "=0.3.23", features = ["env-filter"] }
uuid = { version = "=1.29.0", features = ["v4"] }
futures = "=0.3.34"
