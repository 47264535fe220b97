[package]
name = "zkemail"
version = "0.1.0"
edition = "2021"
publish = false

[dependencies]
sha2 = "=0.10.9"
base64 = "=0.23.1"
regex-automata = "=0.4.18"
rsa = "=0.9.10"
ed25519-dalek = "=2.2.0"
cfdkim = "=0.3.0"
mailparse = "=0.14.1"
mail-parser = "=0.11.9"
slog = "=2.8.2"
anyhow = "*"
serde = { version = "*", features = ["derive"] }
serde_json = "*"
alloy-sol-types = "*"
reqwest = { version = "*", default-features = false }
chrono = { version = "*", features = ["serde"] }
trust-dns-resolver = "*"
