[package]
name = "mc_console"
version = "0.1.0"
edition = "2021"
publish = false

[dependencies]
sha2 = "=0.10.9"
serde = { version = "=1.0.229", features = ["derive"] }
serde_json = "=1.0.154"
reqwest = { version = "=0.11.27", default-features = false, features = ["json"] }
sysinfo = { version = "=0.29.11", default-features = false }
tokio = { version = "=1.54.1", features = ["macros", "rt-multi-thread"] }
rocket = "=0.5.2"
rocket_dyn_templates = { version = "=0.1.0", features = ["tera"] }
rocket_ws = "=0.1.1"
