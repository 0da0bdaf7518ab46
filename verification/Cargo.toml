[package]
name = "text_compressor"
version = "0.1.0"
edition = "2021"
publish = false

[dependencies]
actix-cors = "*"
actix-web = "*"
clap = { version = "*", features = ["derive"] }
dotenv = "*"
log = "*"
serde = { version = "*", features = ["derive"] }
serde_json = "*"
