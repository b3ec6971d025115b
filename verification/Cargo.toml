[package]
name = "qst_ext_appsearcher_rust"
version = "0.1.0"
edition = "2021"
publish = false

[dependencies]
regex = "=1.13.1"
tonic = "=0.14.9"
serde = { version = "=1.0.229", features = ["derive"] }
dirs = "=7.0.0"
tokio = { version = "=1.54.1", features = ["macros", "rt-multi-thread", "net", "signal"] }
tokio-stream = { version = "=0.1.19", features = ["net"] }
signal-hook = "=0.4.6"
xcfg-rs = "*"
xlog-rs = "*"
