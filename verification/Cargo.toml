[package]
name = "my_http_server"
version = "0.1.0"
edition = "2021"
publish = false

[dependencies]
http = "1"
chrono = "0.4"
