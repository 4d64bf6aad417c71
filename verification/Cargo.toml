[package]
name = "moonstone"
version = "0.1.0"
edition = "2021"
publish = false

[dependencies]
godot = "*"
parking_lot = "*"
paste = "*"
heck = "*"
proc-macro2 = "*"
quote = "*"
syn = { version = "*", features = ["full"] }
