[package]
name = "undo_core"
version = "0.1.0"
edition = "2021"
publish = false

[dependencies]
sha2 = "0.10"
similar = "2"
serde = { version = "1", features = ["derive"] }
serde_json = "1"
filetime = "0.2"
fs2 = "0.4"
ctrlc = "3"
notify = "*"
