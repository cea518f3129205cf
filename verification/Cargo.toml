[package]
name = "cull"
version = "0.1.0"
edition = "2021"
publish = false

[dependencies]
blake3 = "=1.8.7"
data-encoding = "=2.11.1"
globset = "=0.4.21"
walkdir = "=2.5.0"
toml = "=0.8.23"
serde = { version = "=1.0.229", features = ["derive"] }
serde_json = "=1.0.154"
thiserror = "=2.0.21"
clap = { version = "=4.6.7", features = ["derive"] }
ruff_python_parser = "=0.0.6"
ruff_python_ast = "=0.0.6"
ruff_text_size = "=0.0.6"

[dev-dependencies]
tempfile = "=3.27.0"
