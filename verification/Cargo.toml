[package]
name = "tansu-nvme"
version = "0.1.0"
edition = "2021"
publish = false

[dependencies]
async-trait = "*"
bytes = "1"
crc-fast = "1"
futures = "0.3"
human-units = "*"
object_store = { version = "0.13", features = ["aws"] }
opentelemetry = "*"
serde = { version = "1", features = ["derive"] }
serde_json = "1"
tokio = { version = "1", features = ["full"] }
tracing = "0.1"
url = "2"
uuid = { version = "1", features = ["v7"] }
