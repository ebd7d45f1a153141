[package]
name = "renet"
version = "0.1.0"
edition = "2021"
publish = false

[dependencies]
octets = "*"
chacha20poly1305 = "*"
aead = "*"
rand_chacha = "0.3"
rand_core = { version = "0.6", features = ["getrandom"] }
bincode = "1"
serde = { version = "1", features = ["derive"] }
bytes = "1"
