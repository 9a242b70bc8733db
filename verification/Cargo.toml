[package]
name = "conduit_cookie"
version = "0.1.0"
edition = "2021"
publish = false

[dependencies]
base64 = "=0.13.1"
cookie = { version = "=0.16.2", features = ["signed", "key-expansion"] }
time = "=0.2.27"
conduit = "=0.10.0"
conduit-middleware = "=0.10.0"

[dev-dependencies]
conduit-test = "=0.10.0"
