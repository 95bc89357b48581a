[package]
name = "doc_assert"
version = "0.1.0"
edition = "2021"
publish = false

[dependencies]
serde_json = "1"
tokio = { version = "1", features = ["macros", "rt-multi-thread", "sync", "time"] }
reqwest = { version = "0.12", default-features = false }
clap = { version = "4", features = ["derive"] }

[dev-dependencies]
assert-json-diff = "2"
