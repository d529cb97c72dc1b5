[package]
name = "mp_http_server"
version = "0.1.0"
edition = "2021"
publish = false

[dependencies]
bytes = "1"
flate2 = "1"
hpack = "0.3"
httparse = "1"
mio = { version = "1", features = ["net", "os-poll"] }
rcgen = "0.13"
rustls = { version = "0.23", default-features = false, features = ["ring", "std", "tls12"] }
thiserror = "1"
