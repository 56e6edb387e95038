[package]
name = "optination"
version = "0.1.0"
edition = "2021"
publish = false

[dependencies]
dirs = "=7.0.0"
png = "=0.18.1"
rayon = "*"
resvg = "=0.49.0"
xcursor = "=0.3.11"
zip = { version = "=9.2.2", default-features = false, features = ["deflate"] }
