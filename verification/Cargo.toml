[package]
name = "binary_tree"
version = "0.1.0"
edition = "2021"
publish = false

[dependencies]
tokio = { version = "1", features = ["macros", "rt", "rt-multi-thread", "sync"] }
