[package]
name = "a_piece_of_pisi"
version = "0.1.0"
edition = "2021"
publish = false

[dependencies]
const-hex = "*"
sha2 = "*"
url = "*"
serde = { version = "*", features = ["derive"] }
serde-xml-rs = "*"
lzma = "*"
reqwest = { version = "*", default-features = false, features = ["rustls-tls"] }
tokio = { version = "*", features = ["rt-multi-thread", "macros"] }
futures = "*"
