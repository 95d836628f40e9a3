[package]
name = "coloring_bt_transactions"
version = "0.1.0"
edition = "2021"
publish = false

[dependencies]
flate2 = "1"
openjp2 = "*"

[dev-dependencies]
png = "*"
