[package]
name = "psd_tree"
version = "0.1.0"
edition = "2021"
publish = false

[dependencies]
psd = "*"
png = "*"
auto-image-cropper = "*"
