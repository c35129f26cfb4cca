[package]
name = "code_execution"
version = "0.1.0"
edition = "2021"
publish = false

[dependencies]
anyhow = "1"
async-trait = "0.1"
boa_engine = "0.21"
indoc = "2"
rmcp = "0.9"
schemars = "1"
serde = { version = "1", features = ["derive"] }
serde_json = "1"
tokio = { version = "1", features = ["rt", "sync"] }
tokio-util = "0.7"
