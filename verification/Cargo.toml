[package]
name = "lxs_registry"
version = "0.1.0"
edition = "2021"
publish = false

[dependencies]
serde = { version = "1", features = ["derive"] }
serde_json = "1"
serde_yaml = "0.9"
axum = "0.7"
tokio = { version = "1", features = ["macros", "rt-multi-thread", "net"] }
tower-http = { version = "0.6", features = ["fs"] }
leptos = { version = "0.7", features = ["ssr"] }
leptos_axum = "0.7"
actix-web = { version = "4", default-features = false, features = ["macros"] }
