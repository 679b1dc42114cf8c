[package]
name = "colorsquash"
version = "0.1.0"
edition = "2021"
publish = false

[dependencies]
png = "=0.17.16"
zune-jpeg = "=0.4.21"
camino = "=1.2.6"
anyhow = "=1.0.104"
