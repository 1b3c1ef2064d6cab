[package]
name = "pdfops"
version = "0.1.0"
edition = "2021"
publish = false

[dependencies]
lopdf = "*"
comrak = { version = "*", default-features = false }
anyhow = "*"
serde = { version = "*", features = ["derive"] }
serde_json = "*"
rmcp = { version = "*", features = ["server", "macros", "transport-io"] }
schemars = "*"
tokio = { version = "*", features = ["macros", "rt-multi-thread", "io-std"] }
