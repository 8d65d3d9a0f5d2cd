[package]
name = "local_ip_resolver"
version = "0.1.0"
edition = "2021"
publish = false

[dependencies]
winapi = { version = "0.3", features = ["inaddr", "iphlpapi", "iptypes", "minwindef", "ntdef", "winerror", "ws2def", "ws2ipdef"] }
