[package]
name = "editor_core"
version = "0.1.0"
edition = "2021"
publish = false

[dependencies]
syntect = { version = "5", default-features = false, features = ["default-syntaxes", "regex-fancy"] }
tracing = "0.1"
