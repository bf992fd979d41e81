[package]
name = "fp_gadgets"
version = "0.1.0"
edition = "2021"
publish = false

[dependencies]
num = "=0.4.3"
p3-air = "=0.1.0"
p3-baby-bear = "=0.1.0"
p3-field = "=0.1.0"
