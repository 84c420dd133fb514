[package]
name = "mcaedit-core"
version = "0.1.0"
edition = "2021"
publish = false

[dependencies]
zstd = "*"
ruzstd = "*"
xxhash-rust = { version = "*", features = ["xxh64"] }
indexmap = "*"
mca = "*"
bytes = "*"
serde = { version = "*", features = ["derive"] }
serde_json = "*"
fastnbt = "*"
flate2 = "*"
uuid = { version = "*", features = ["v4"] }
anyhow = "*"
thiserror = "*"
