[package]
name = "servyi-states"
version = "0.1.0"
edition = "2021"
publish = false

[dependencies]
anyhow = "1"
async-trait = "0.1"
dashmap = "6"
futures = "0.3"
tracing = "0.1"
tracing-subscriber = "0.3"
