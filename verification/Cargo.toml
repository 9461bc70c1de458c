[package]
name = "mtpng"
version = "0.1.0"
edition = "2021"
publish = false

[dependencies]
clap = "2"
crc = "1.8"
miniz_oxide = "*"
png = "0.16"
rayon = "1"
