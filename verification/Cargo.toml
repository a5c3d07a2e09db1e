[package]
name = "cjdrs"
version = "0.1.0"
edition = "2021"
publish = false

[dependencies]
sha2 = "=0.10.9"
x25519-dalek = "=2.0.1"
chacha20poly1305 = "=0.10.1"
getrandom = "=0.2.17"
docopt = "=1.1.1"
mio = { version = "=1.2.4", features = ["os-poll", "net", "os-ext"] }
serde = { version = "=1.0.229", features = ["derive"] }
serde_json = "=1.0.154"
libc = "=0.2.191"
