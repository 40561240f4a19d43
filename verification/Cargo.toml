[package]
name = "msh_rw"
version = "0.1.0"
edition = "2021"
publish = false

[dependencies]
bstr = "*"
nom = "5"
serde = { version = "1", features = ["derive"] }
thiserror = "1"
