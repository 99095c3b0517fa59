[package]
name = "ctab_web"
version = "1.0.0"
edition = "2021"
publish = false

[dependencies]
serde = { version = "=1.0.229", features = ["derive"] }
serde_json = "=1.0.154"
subtle = "=2.6.1"
getrandom = "=0.3.4"
lzo = "=0.1.4"
texpresso = "=2.0.2"
image = { version = "=0.25.10", default-features = false, features = ["png"] }
thiserror = "=2.0.21"
tokio = { version = "=1.54.1", features = ["full"] }
axum = { version = "=0.8.9", features = ["ws"] }
futures-util = { version = "=0.3.34", features = ["sink"] }
reqwest = { version = "=0.12.28", default-features = false, features = ["stream", "rustls-tls"] }
rust-embed = { version = "=8.13.0", features = ["interpolate-folder-path"] }
windows-sys = { version = "=0.59.0", features = ["Win32_Foundation", "Win32_UI_Shell", "Win32_UI_WindowsAndMessaging", "Win32_System_LibraryLoader", "Win32_System_Threading"] }
