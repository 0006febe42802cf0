[package]
name = "dactylo"
version = "0.1.0"
edition = "2021"
publish = false

[dependencies]
chrono = "0.4"
rand = "*"
clap = { version = "4", features = ["derive"] }
clap_complete = "4"
color-eyre = "0.6"
crossterm = { version = "*", features = ["event-stream"] }
ratatui = "*"
reqwest = { version = "0.12", features = ["json"] }
serde = { version = "1", features = ["derive"] }
tokio = { version = "1", features = ["macros", "rt-multi-thread"] }
tokio-stream = "0.1"
