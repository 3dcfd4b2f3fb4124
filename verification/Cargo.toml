[package]
name = "deflate"
version = "0.1.0"
edition = "2021"
publish = false

[dependencies]
adler32 = "=1.2.0"
gzip-header = "=1.1.0"

[dev-dependencies]
miniz_oxide = "=0.9.1"
