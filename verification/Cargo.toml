[package]
name = "disk_analyzer"
version = "0.1.0"
edition = "2021"
publish = false

[dependencies]
rust_decimal = "1"
walkdir = "2"
fs_extra = "1"
rand = "0.8"
fltk = "1"
fltk-evented = "*"
fltk-table = "*"
fltk-theme = "*"
