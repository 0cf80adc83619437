[package]
name = "rotala"
version = "0.1.0"
edition = "2021"
publish = false

[dependencies]
rand = "0.8"
serde = { version = "1", features = ["derive"] }
actix-web = { version = "4", default-features = false }
tokio = { version = "1", default-features = false, features = ["sync"] }
async-trait = "0.1"
log = "0.4"
