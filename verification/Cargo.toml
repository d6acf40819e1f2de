[package]
name = "stegshare"
version = "0.1.0"
edition = "2021"
publish = false

[dependencies]
base64 = "=0.23.1"
dotenv = "=0.15.0"
futures = "=0.3.34"
image = "=0.21.3"
md5 = "*"
mysql = "=28.0.3"
rand = "=0.9.5"
serde = { version = "=1.0.229", features = ["derive"] }
serde_cbor = "=0.11.2"
serde_json = "=1.0.151"
steganography = "=1.0.2"
tokio = { version = "=1.53.2", features = ["full"] }
uuid = { version = "=1.27.0", features = ["v4"] }
