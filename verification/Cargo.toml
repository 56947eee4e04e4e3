[package]
name = "statsd_metrics"
version = "0.1.0"
edition = "2021"
publish = false

[dependencies]
metrics = "*"
serde_json = "*"
log = "*"
bytes = "*"
