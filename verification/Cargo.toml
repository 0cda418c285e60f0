[package]
name = "gas_test"
version = "0.1.0"
edition = "2021"
publish = false

[dependencies]
anyhow = "*"
serde_json = "*"
tokio = { version = "*", features = ["macros", "rt-multi-thread"] }
workspaces = "*"
