[package]
name = "mazegen"
version = "0.1.0"
edition = "2021"
publish = false

[dependencies]
rand = "0.9"
image = { version = "*", default-features = false, features = ["png"] }
gif = "*"
docopt = "*"
color_scaling = "*"
read_color = "*"
