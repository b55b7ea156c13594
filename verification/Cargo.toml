[package]
name = "gix_motor"
version = "0.1.0"
edition = "2021"
publish = false

[dependencies]
gix-hash = { version = "=0.25.1", features = ["sha1", "sha256"] }
gix-object = "=0.60.0"
gix-features = { version = "=0.48.1", features = ["progress", "parallel"] }
gix-tempfile = "=23.0.2"
gix-zlib = "=0.1.0"
memmap2 = "=0.9.12"
parking_lot = "=0.12.5"
serde = { version = "=1.0.229", features = ["derive"] }
thiserror = "=2.0.21"
