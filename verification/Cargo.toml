[package]
name = "span_graph"
version = "0.1.0"
edition = "2021"
publish = false

[dependencies]
linear-map = "1.2"
tracing = "0.1"
tracing-subscriber = "0.3"
