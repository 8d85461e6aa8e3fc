[package]
name = "japanese_corpus"
version = "0.1.0"
edition = "2021"
publish = false

[dependencies]
anyhow = "1"
clap = { version = "4", features = ["derive"] }
csv = "1"
flate2 = "1"
quick-xml = "0.38"
rayon = "1"
rustc-hash = "2"
serde = { version = "1", features = ["derive"] }
serde_json = "1"
sha2 = "0.10"
to-kana = "*"
unicode-normalization = "0.1"
vibrato = "0.5.2"
zstd = { version = "0.13", features = ["zstdmt"] }
