[package]
name = "zarrdf"
version = "0.1.0"
edition = "2021"
publish = false

[dependencies]
anyhow = "=1.0.104"
fcsd = "=0.2.0"
itertools = "=0.14.0"
oxrdf = "=0.3.5"
oxrdfio = "=0.2.7"
serde_json = "=1.0.154"
thiserror = "=2.0.21"
zarrs = { version = "=0.19.2", default-features = false, features = ["gzip", "filesystem"] }
