[package]
name = "jilu"
version = "0.1.0"
edition = "2021"
publish = false

[dependencies]
semver = "=1.0.28"
conventional = "=0.5.0"
serde = { version = "=1.0.229", features = ["derive"] }
serde_json = "=1.0.151"
tera = { version = "=1.20.1", default-features = false }
chrono = "=0.4.45"
git2 = { version = "=0.21.0", default-features = false }
ron = "=0.8.1"
url = "=2.5.8"
lexopt = "=0.3.2"
tempfile = "=3.27.0"
jaq-core = "=2.2.1"
jaq-std = "=2.1.2"
jaq-json = { version = "=1.1.3", features = ["serde_json"] }
