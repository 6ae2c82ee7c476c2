[package]
name = "conjure_presets"
version = "0.1.0"
edition = "2021"
publish = false
