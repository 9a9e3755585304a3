[package]
name = "docsearch"
version = "0.1.0"
edition = "2021"
publish = false

[dependencies]
anyhow = "*"
bimap = "*"
itertools = "*"
log = "*"
mapr = "*"
quick-xml = { version = "*", features = ["serialize"] }
rust-stemmers = "*"
serde = { version = "*", features = ["derive"] }
simplelog = "*"
stop-words = "*"
unicode-segmentation = "*"
xxhash-rust = { version = "*", features = ["xxh3"] }
