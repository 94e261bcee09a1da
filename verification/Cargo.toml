[package]
name = "fast_sudoku"
version = "0.1.0"
edition = "2021"
publish = false

[dependencies]
rand = { version = "0.8", default-features = false, features = ["std", "std_rng", "small_rng", "getrandom"] }
wasm-bindgen = "0.2"
