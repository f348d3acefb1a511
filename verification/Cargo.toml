[package]
name = "stock_pipeline"
version = "0.1.0"
edition = "2021"
publish = false

[dependencies]
chrono = "0.4"
clap = { version = "3", features = ["derive"] }
async-std = { version = "1", features = ["attributes"] }
async-trait = "0.1"
futures = "0.3"
xactor = "0.7"
yahoo_finance_api = "1"
time = "0.3"
