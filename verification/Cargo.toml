[package]
name = "agui_core"
version = "0.1.0"
edition = "2021"
publish = false

[dependencies]
slotmap = "1"
fnv = "1"
peniko = "*"
