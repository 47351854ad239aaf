[package]
name = "lambda_optimization"
version = "0.1.0"
edition = "2021"
publish = false

[dependencies]
itertools = "*"
slotmap = "1"

[dev-dependencies]
TSPL = "*"
