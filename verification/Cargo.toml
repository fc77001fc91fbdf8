[package]
name = "veloci"
version = "0.1.0"
edition = "2021"
publish = false

[dependencies]
vint32 = "*"
byteorder = "*"
fst = { version = "*", features = ["levenshtein"] }
serde = { version = "*", features = ["derive"] }
