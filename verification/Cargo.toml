[package]
name = "ron"
version = "0.12.0"
edition = "2021"
publish = false

[dependencies]
base64 = "=0.22.1"
serde = "=1.0.229"
unicode-ident = "=1.0.27"
rustc-serialize = "=0.3.25"
unicode-segmentation = "1"
