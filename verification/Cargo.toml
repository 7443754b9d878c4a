[package]
name = "wimg"
version = "0.1.0"
edition = "2021"
publish = false

[dependencies]
xxhash-rust = { version = "*", features = ["const_xxh64"] }
hex = "*"
resize = "*"
rgb = "*"
png = "*"
ravif = { version = "*", default-features = false }
mozjpeg-sys = { version = "*", default-features = false }
libwebp-sys = "*"
rayon = "*"
clap = { version = "*", features = ["derive"] }
serde = { version = "*", features = ["derive"] }
serde_json = "*"
log = "*"
pretty_env_logger = "*"
thiserror = "*"
