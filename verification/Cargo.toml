[package]
name = "leaf"
version = "0.1.0"
edition = "2021"
publish = false

[dependencies]
base16ct = { version = "*", features = ["alloc"] }
curl = "*"
indicatif = "*"
log = "*"
md-5 = "*"
once_cell = "*"
rusqlite = { version = "*", features = ["bundled"] }
serde = { version = "*", features = ["derive"] }
serde_json = "*"
tar = "*"
threadpool = "*"
toml = "*"
xz = "*"
