[package]
name = "mc_screenshot_copy"
version = "0.1.0"
edition = "2021"
publish = false

[dependencies]
colored = "*"
