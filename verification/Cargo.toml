[package]
name = "swiftide_ask"
version = "0.1.0"
edition = "2021"
publish = false

[dependencies]
anyhow = "=1.0.104"
# Named only to hold it at the release that swiftide-integrations 0.31.3 builds with;
# that crate does not compile with the later releases of the 0.29 line.
async-openai = { version = "=0.29.3", default-features = false }
futures = "=0.3.34"
ignore = "=0.4.33"
opentelemetry = "=0.26.0"
opentelemetry-otlp = "=0.26.0"
opentelemetry_sdk = { version = "=0.26.0", features = ["rt-tokio"] }
qdrant-client = { version = "=1.15.0", default-features = false, features = ["serde"] }
swiftide-core = "=0.31.3"
swiftide-indexing = "=0.31.3"
swiftide-integrations = { version = "=0.31.3", default-features = false, features = ["tree-sitter", "qdrant", "redis", "groq"] }
tokio = { version = "=1.54.1", features = ["macros", "rt-multi-thread", "time"] }
tracing = "=0.1.44"
tracing-opentelemetry = "=0.27.0"
tracing-subscriber = { version = "=0.3.23", features = ["env-filter"] }
uuid = "=1.29.0"
