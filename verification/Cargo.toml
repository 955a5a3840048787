[package]
name = "commission_report"
version = "0.1.0"
edition = "2021"
publish = false

[dependencies]
calamine = "*"
chrono = "*"
clap = { version = "*", features = ["derive"] }
xlsxwriter = "*"
