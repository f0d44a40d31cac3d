[package]
name = "rabbit_storage_explorer"
version = "0.1.0"
edition = "2021"
publish = false

[dependencies]
aes-siv = "=0.7.0"
anyhow = "=1.0.104"
argon2 = "=0.5.3"
async-channel = "=2.5.0"
async-trait = "=0.1.92"
aws-config = { version = "=1.13.0", default-features = false, features = ["default-https-client", "rt-tokio"] }
aws-sdk-s3 = { version = "=1.157.0", default-features = false, features = ["default-https-client", "rt-tokio"] }
aws-smithy-types = "=1.9.1"
base64 = "=0.22.1"
bytes = "=1.12.1"
chacha20poly1305 = "=0.10.1"
data-encoding = "=2.11.1"
gtk4 = "=0.11.5"
hkdf = "=0.12.4"
http-body = "=1.1.0"
keyring = { version = "=3.6.3", default-features = false, features = ["linux-native"] }
libadwaita = "=0.9.2"
nfs3_client = { version = "=0.9.1", features = ["tokio"] }
rand = "=0.10.3"
russh = { version = "=0.65.0", default-features = false, features = ["ring"] }
russh-sftp = "=2.4.0"
serde = { version = "=1.0.229", features = ["derive"] }
serde_json = "=1.0.154"
sha2 = "=0.10.9"
smb2 = "=0.39.0"
tokio = { version = "=1.54.1", features = ["full"] }
tokio-util = "=0.7.20"
walkdir = "=2.5.0"
zeroize = { version = "=1.9.1", features = ["derive"] }
