[package]
name = "draw_lots"
version = "0.1.0"
edition = "2021"
publish = false

[dependencies]
ink_env = "=3.4.0"
ink_lang = "=3.4.0"
ink_prelude = "=3.4.0"
ink_primitives = "=3.4.0"
ink_storage = "=3.4.0"
parity-scale-codec = { version = "=3.7.5", features = ["derive"] }
scale-info = { version = "=2.11.6", features = ["derive"] }
