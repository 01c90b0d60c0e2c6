[package]
name = "pfsp_solver"
version = "0.1.0"
edition = "2021"
publish = false

[dependencies]
rand = "0.10"
tokio = { version = "1", features = ["full"] }
tokio-util = "0.7"
crossterm = "0.28"
ratatui = "0.29"
tui-textarea = "0.7"
color-eyre = "0.6"
