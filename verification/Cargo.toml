[package]
name = "gitx_bounded"
version = "0.1.0"
edition = "2021"
publish = false

[dependencies]
clru = "=0.6.3"
gix-hash = { version = "=0.28.1", features = ["sha1"] }
gix-object = "=0.66.1"
gix-hashtable = "=0.18.1"
tempfile = "=3.27.0"
memmap2 = "=0.9.12"
libc = "=0.2.191"
walkdir = "=2.5.0"
anyhow = "=1.0.104"
thiserror = "=2.0.21"
clap = { version = "=4.6.7", features = ["derive"] }
serde = { version = "=1.0.229", features = ["derive"] }
