[package]
name = "salvo_routing"
version = "0.1.0"
edition = "2021"
publish = false

[dependencies]
futures-util = "0.3"
tracing = "0.1"
