[package]
name = "sparkline"
version = "0.1.0"
edition = "2021"
publish = false

[dependencies]
ratatui-core = "*"
ratatui-widgets = "*"
tiny-skia = "*"
