[package]
name = "back_test"
version = "0.1.0"
edition = "2021"
publish = false

[dependencies]
umya-spreadsheet = "*"
rust_xlsxwriter = "*"
yahoo_finance_api = "*"
time = "*"
tokio = { version = "*", features = ["macros", "rt-multi-thread"] }
