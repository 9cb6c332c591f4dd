[package]
name = "nelsie"
version = "0.1.0"
edition = "2021"
publish = false

[dependencies]
log = "=0.4.34"
pyo3 = "=0.20.3"
resvg = "=0.36.0"
roxmltree = "=0.18.1"
serde = { version = "=1.0.229", features = ["derive"] }
serde_json = "=1.0.154"
svgtypes = "=0.12.0"
thiserror = "=1.0.69"
ttf-parser = "=0.19.2"
usvg = "=0.36.0"
usvg-tree = "=0.36.0"
zip = { version = "=0.6.6", default-features = false, features = ["deflate"] }
