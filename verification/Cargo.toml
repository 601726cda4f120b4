[package]
name = "automaton_engine"
version = "0.1.0"
edition = "2021"
publish = false

[dependencies]
fixedbitset = "0.4"
getrandom = "0.2"
wasm-bindgen = "0.2"
js-sys = "0.3"
