[package]
name = "ds1302"
version = "0.1.0"
edition = "2021"
publish = false

[dependencies]
ch32v-rt = "=0.0.3"
embedded-hal = { version = "=0.2.7", features = ["unproven"] }
fugit = "=0.3.9"
qingke = "=0.1.12"
