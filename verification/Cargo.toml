[package]
name = "fast_game_of_life"
version = "0.1.0"
edition = "2021"
publish = false

[dependencies]
hashbrown = "0.15"
wasm-bindgen = "0.2"
minifb = "*"
indoc = "2"
