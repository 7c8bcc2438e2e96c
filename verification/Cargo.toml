[package]
name = "tui_document"
version = "0.1.0"
edition = "2021"
publish = false

[dependencies]
unicode-segmentation = "*"
syntect = "*"
ratatui = "*"
ansi-to-tui = "*"
