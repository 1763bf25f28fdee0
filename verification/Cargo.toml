[package]
name = "shopify_app"
version = "0.1.0"
edition = "2021"
publish = false

[dependencies]
base64 = "0.13"
hex = "0.4"
hmac = "0.11"
sha2 = "0.9"
textnonce = "1.0"
