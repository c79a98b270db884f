[package]
name = "s3_storage"
version = "0.1.0"
edition = "2021"
publish = false

[dependencies]
md5 = "0.7"
uuid = { version = "1", features = ["v4"] }
bcrypt = "*"
actix-web = "4"
serde = { version = "1", features = ["derive"] }
serde_json = "1"
bytes = "1"
