[package]
name = "rb64"
version = "0.1.0"
edition = "2021"
publish = false

[dependencies]
fltk = "1"
ratatui = "0.29"
tui-textarea = "0.7"
