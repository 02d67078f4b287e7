[package]
name = "comment_lint"
version = "0.1.0"
edition = "2021"
publish = false

[dependencies]
tokio = { version = "*", features = ["full"] }
tower-lsp = "*"
