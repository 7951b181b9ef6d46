[package]
name = "tyda_lsp"
version = "0.1.0"
edition = "2021"
publish = false

[dependencies]
ruby-prism = "*"
tower-lsp = "0.20"
serde = { version = "1", features = ["derive"] }
serde_json = "1"
tokio = { version = "1", features = ["full"] }
clap = { version = "4", features = ["derive"] }
rayon = "1"
libc = "0.2"
rustc-hash = "*"
