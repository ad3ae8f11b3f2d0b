[package]
name = "pdfplumber"
version = "0.1.0"
edition = "2021"
publish = false

[dependencies]
csv = "=1.4.0"
euclid = "=0.20.14"
image = { version = "=0.25.10", default-features = false }
lopdf = "=0.42.0"
ordered-float = "=5.5.1"
pdf-extract = "=0.12.1"
regex = "=1.13.1"
serde_json = "=1.0.154"
thiserror = "=2.0.21"
