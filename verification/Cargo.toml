[package]
name = "task_harness"
version = "0.1.0"
edition = "2021"
publish = false

[dependencies]
futures = "=0.3.34"
opentelemetry = "0.7"
opentelemetry-jaeger = "0.6"
rand = "=0.7.3"
rand_distr = "=0.3.0"
tokio = { version = "=0.2.25", features = ["macros", "rt-threaded", "time"] }
tracing = "=0.1.44"
tracing-opentelemetry = "0.6"
tracing-subscriber = "=0.2.25"
