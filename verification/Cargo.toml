[package]
name = "utz"
version = "0.1.0"
edition = "2021"
publish = false

[dependencies]
brotli = "8"
brotli-decompressor = "5"
clap = { version = "4", features = ["derive"] }
lzma-rust2 = "*"
miniz_oxide = { version = "0.8", features = ["with-alloc"] }
ruzstd = "0.8"
scroll = "*"
serde = { version = "1", features = ["derive"] }
serde_json = "1"
tiff = "*"
ureq = "3"
zip = { version = "*", default-features = false, features = ["deflate"] }
zstd = "0.13"

[dev-dependencies]
geo = "*"
