[package]
name = "taurus"
version = "0.1.0"
edition = "2021"
publish = false

[dependencies]
flate2 = "1"
mime_guess = "2"
tempfile = "3"
tiny_http = "0.12"
zip = { version = "9", default-features = false, features = ["deflate"] }
