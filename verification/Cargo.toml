[package]
name = "lease_sim"
version = "0.1.0"
edition = "2021"
publish = false

[dependencies]
dioxus = { version = "=0.7.9", features = ["web", "router"] }
gloo-timers = { version = "0.3", features = ["futures"] }
js-sys = "0.3"
