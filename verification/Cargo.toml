[package]
name = "big_text_viewer"
version = "0.4.0"
edition = "2021"
publish = false

[dependencies]
chardetng = "0.1"
encoding_rs = "0.8"
memchr = "2"
memmap2 = "0.9"
egui = "0.29"
eframe = { version = "0.29", default-features = false, features = ["glow", "default_fonts", "x11"] }
rfd = "0.15"
