[package]
name = "mosh_client"
version = "0.1.0"
edition = "2021"
publish = false

[dependencies]
aes = "*"
ocb3 = "*"
base64 = "*"
miniz_oxide = "*"
unicode-width = "*"
vt100 = "*"
vte = "*"
zeroize = "*"
tokio = { version = "1", features = ["rt", "net", "sync", "time"] }

[dev-dependencies]
prost = "*"
