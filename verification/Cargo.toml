[package]
name = "flams"
version = "0.1.0"
edition = "2021"
publish = false

[dependencies]
waken_snowball = "=0.1.0"
oauth2 = { version = "=4.4.2", default-features = false }
urlencoding = "=2.1.3"
radix_trie = "=0.3.0"
url = "=2.5.8"
serde = { version = "=1.0.229", features = ["derive"] }
