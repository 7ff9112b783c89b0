[package]
name = "envoy-files"
version = "0.1.0"
edition = "2021"
publish = false

[dependencies]
async-channel = "=2.5.0"
compio-buf = "=0.8.3"
compio-driver = "=0.12.5"
compio-fs = "=0.12.1"
compio-io = "=0.10.1"
compio-runtime = "=0.12.6"
flate2 = "=1.1.10"
headers = "=0.4.2"
html-escape = "=0.2.15"
http = "=1.5.0"
httpdate = "=1.0.3"
libc = "=0.2.191"
new_mime_guess = "=4.0.4"
oneshot = { version = "=0.2.1", features = ["std"] }
percent-encoding = "=2.3.2"
serde_json = "=1.0.154"
sha2 = "=0.10.9"
ureq = "=3.5.1"
yaml-rust2 = "=0.13.0"
zip = "=9.2.2"
