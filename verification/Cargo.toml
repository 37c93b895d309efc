[package]
name = "eve_sde_mcp"
version = "0.1.0"
edition = "2021"
publish = false

[dependencies]
memchr = "2"
directories = "*"
anyhow = "1"
clap = { version = "4", features = ["derive", "env"] }
serde = { version = "1", features = ["derive"] }
serde_json = "1"
reqwest = { version = "0.12", default-features = false, features = ["blocking", "rustls-tls"] }
zip = { version = "*", default-features = false, features = ["deflate"] }
indicatif = "*"
rmcp = { version = "*", features = ["server", "macros", "transport-io", "transport-streamable-http-server"] }
tokio = { version = "1", features = ["full"] }
axum = "*"
tracing = "0.1"
tracing-subscriber = { version = "0.3", features = ["env-filter"] }
