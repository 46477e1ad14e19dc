[package]
name = "voice2text"
version = "0.1.0"
edition = "2021"
publish = false

[dependencies]
serde = { version = "=1.0.229", features = ["derive"] }
serde_json = "=1.0.154"
chrono = "=0.4.45"
hound = "=3.5.1"
wasapi = "=0.26.0"
windows-sys = { version = "=0.61.2", features = ["Win32_Foundation", "Win32_System_Console"] }
whisper-rs = "=0.16.0"
sherpa-rs = "=0.6.8"
llama-cpp-2 = "=0.1.160"
