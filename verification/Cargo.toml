[package]
name = "riscv_mm"
version = "0.1.0"
edition = "2021"
publish = false

[dependencies]
lazy_static = "1"
spin = "0.9"
static_assertions = "1"
