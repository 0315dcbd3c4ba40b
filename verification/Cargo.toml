[package]
name = "subscription_fee"
version = "0.1.0"
edition = "2021"
publish = false

[dependencies]
dharitri-sc = "*"
dharitri-sc-modules = "*"
