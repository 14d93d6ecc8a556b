[package]
name = "opensplit"
version = "0.1.0"
edition = "2021"
publish = false

[dependencies]
actix-cors = "0.6"
actix-web = "4"
bson = "2"
futures = "0.3"
hmac = "0.12"
mongodb = "2"
serde = { version = "1", features = ["derive"] }
serde_json = "1"
sha2 = "0.10"
