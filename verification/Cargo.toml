[package]
name = "lalrpop_lsp"
version = "0.1.0"
edition = "2021"
publish = false

[dependencies]
dashmap = "*"
env_logger = "*"
lalrpop = "*"
tokio = { version = "*", features = ["full"] }
tower-lsp = "*"
