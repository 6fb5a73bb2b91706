[package]
name = "octave_lsp"
version = "0.1.0"
edition = "2021"
publish = false

[dependencies]
flurry = "*"
tokio = { version = "*", features = ["io-std", "rt-multi-thread", "macros"] }
tower-lsp = "*"
