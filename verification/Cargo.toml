[package]
name = "zipring"
version = "0.1.0"
edition = "2021"
publish = false

[dependencies]
const-hex = "=1.19.3"
# Not called here, but by rc-zip: 0.1.11 and 0.1.12 can fail an assertion on valid data.
deflate64 = "=0.1.10"
httparse = "=1.10.1"
itoa = "=1.0.18"
miette = "=7.6.0"
mime_guess = "=2.0.5"
monoio = "=0.2.4"
percent-encoding = "=2.3.2"
rc-zip = { version = "=5.4.1", features = ["bzip2", "deflate", "deflate64", "lzma", "zstd"] }
tracing = "=0.1.44"
tracing-subscriber = "=0.3.23"
v_htmlescape = "=0.15.8"
winnow = "=0.5.40"

[dev-dependencies]
flate2 = "=1.1.10"
