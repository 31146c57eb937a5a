[package]
name = "checkpoint_explorer"
version = "0.1.0"
edition = "2021"
publish = false

[dependencies]
anyhow = "1"
clap = { version = "4", features = ["derive"] }
crossterm = "*"
flate2 = "1"
fuzzy-matcher = "0.3"
glob = "0.3"
half = "2"
hdf5-metno = "*"
libc = "0.2"
memmap2 = "*"
ndarray = "*"
png = "*"
ratatui = "*"
rayon = "1"
serde_json = "1"
unicode-width = "0.2"
zip = { version = "*", default-features = false, features = ["deflate"] }
zstd = "0.13"
