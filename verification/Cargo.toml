[package]
name = "otel_metrics"
version = "0.1.0"
edition = "2021"
publish = false

[dependencies]
foldhash = "=0.2.0"
