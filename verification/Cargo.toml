[package]
name = "tree_print"
version = "0.1.0"
edition = "2021"
publish = false

[dependencies]
crossbeam-channel = "=0.5.17"
ignore = "=0.4.34"
rfd = "=0.17.2"
eframe = { version = "=0.33.3", default-features = false, features = ["default_fonts", "glow", "x11"] }
