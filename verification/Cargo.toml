[package]
name = "keep_talkin"
version = "0.1.0"
edition = "2021"
publish = false

[dependencies]
ahash = "0.8"
aho-corasick = "1"
base64 = "0.22"
pcre2 = "0.2"
pyo3 = "*"
rayon = "1"
serde = { version = "1", features = ["derive"] }
serde_json = "1"
thiserror = "2"
