[package]
name = "photocatalog"
version = "0.1.0"
edition = "2021"
publish = false

[dependencies]
anyhow = "1"
aws-config = "1"
aws-sdk-s3 = "1"
axum = "0.6"
chrono = "0.4"
envy = "0.4"
http = "0.2"
jsonwebtoken = "9"
oauth2 = "4"
reqwest = { version = "0.11", features = ["json"] }
serde = { version = "1", features = ["derive"] }
serde_json = "1"
simsearch = "0.2"
tokio = { version = "1", features = ["full"] }
url = "2"
