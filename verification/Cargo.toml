[package]
name = "dkim_verify"
version = "0.1.0"
edition = "2021"
publish = false

[dependencies]
base64 = "=0.23.1"
sha1 = "=0.10.7"
sha2 = "=0.10.9"
rsa = { version = "=0.9.10", features = ["sha1", "sha2"] }
ed25519-dalek = "=3.0.0"
clap = { version = "=4.6.7", features = ["derive"] }
mail-parser = "=0.11.9"
hickory-resolver = "=0.26.3"
tokio = { version = "*", features = ["rt", "macros"] }

[dev-dependencies]
rand = "=0.8.8"
