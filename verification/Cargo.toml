[package]
name = "fmt_comparison"
version = "0.1.0"
edition = "2021"
publish = false

[dependencies]
cortex-m = "0.7"
cortex-m-rt = "0.7"
heapless = { version = "0.8", features = ["ufmt"] }
itertools = "0.11"
ufmt = "0.2"
ufmt_float = "*"
