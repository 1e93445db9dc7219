[package]
name = "rpi_lcd_project"
version = "0.1.0"
edition = "2021"
publish = false

[dependencies]
spidev = "*"
