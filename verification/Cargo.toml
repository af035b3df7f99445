[package]
name = "ngram_index"
version = "0.1.0"
edition = "2021"
publish = false

[dependencies]
sysinfo = "=0.39.6"
parquet = { version = "=60.0.0", default-features = false }
clickrs = "=0.1.5"
structopt = "*"
