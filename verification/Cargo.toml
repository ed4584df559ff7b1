[package]
name = "data_cleaning"
version = "0.1.0"
edition = "2021"
publish = false

[dependencies]
calamine = { version = "=0.38.0", features = ["dates"] }
chrono = "=0.4.45"
regex = "=1.13.1"
rust_decimal = "=1.43.0"
thiserror = "=2.0.21"
rust_xlsxwriter = "=0.102.0"
