[package]
name = "buildkite_test_collector"
version = "0.1.2"
edition = "2021"
publish = false

[dependencies]
uuid = { version = "*", features = ["v4"] }
serde = { version = "*", features = ["derive"] }
serde_json = "*"
ureq = { version = "*", features = ["json"] }
http = "*"

[dev-dependencies]
rand = "*"
