[package]
name = "eapp_tools"
version = "0.1.0"
edition = "2021"
publish = false

[dependencies]
minifb = { version = "*", default-features = false, features = ["x11"] }
