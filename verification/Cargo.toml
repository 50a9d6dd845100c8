[package]
name = "reasonmetrics"
version = "0.2.0"
edition = "2021"
publish = false

[dependencies]
regex = "1"
whichlang = "*"
sha2 = "0.10"
serde = { version = "1", features = ["derive"] }
serde_json = "1"
toml = "0.8"
thiserror = "1"
anyhow = "1"
clap = { version = "4", features = ["derive"] }
rayon = "1"
indicatif = "0.17"
flate2 = "1"
minijinja = "2"
arrow = { version = "53", default-features = false }
parquet = { version = "53", default-features = false, features = ["arrow", "snap"] }
tracing = "0.1"
tracing-subscriber = { version = "0.3", features = ["env-filter"] }
ureq = { version = "2", features = ["json"] }
wasm-bindgen = "0.2"
