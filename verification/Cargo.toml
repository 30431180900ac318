[package]
name = "armistice_core"
version = "0.1.0"
edition = "2021"
publish = false

[dependencies]
sha2 = "*"
aes-gcm-siv = "*"
veriform = "*"
