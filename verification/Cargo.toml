[package]
name = "focal"
version = "0.1.0"
edition = "2021"
publish = false

[dependencies]
uuid = { version = "1", features = ["v4"] }
pathdiff = "0.2"
url = "2"
rusqlite = { version = "*", features = ["bundled"] }
serde = { version = "1", features = ["derive"] }
serde_json = "1"
yaml_serde = "*"
clap = { version = "4", features = ["derive"] }
rmcp = { version = "*", features = ["server", "transport-io"] }
tokio = { version = "1", features = ["rt", "macros", "io-std"] }
schemars = "*"

[dev-dependencies]
tempfile = "3"
