[package]
name = "observe"
version = "0.1.0"
edition = "2021"
publish = false

[dependencies]
fxhash = "0.2"
smallvec = { version = "1", features = ["const_generics"] }
snowflake = "1"
parking_lot = "0.12"
arc-swap = "1"
futures = "0.3"
tokio = { version = "1", features = ["rt", "sync", "time"] }
tokio-util = "0.7"
wasm-bindgen = "0.2"
wasm-bindgen-futures = "0.4"
