[package]
name = "casting"
version = "0.1.0"
edition = "2021"
publish = false

[dependencies]
nannou = "0.19"
nannou_egui = "0.19"
libc = "0.2"
serde = "1"
serde_derive = "1"
serde_json = "1"
