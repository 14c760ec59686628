[package]
name = "procedure_store"
version = "0.1.0"
edition = "2021"
publish = false

[dependencies]
serde_json = "1"
futures = "0.3"
async-trait = "0.1"
