[package]
name = "onto_extra"
version = "0.1.0"
edition = "2021"
publish = false

[dependencies]
uuid = { version = "1", features = ["v4"] }
serde = { version = "1", features = ["derive"] }
serde_json = "1"
thiserror = "*"
axum = "*"
tokio = { version = "1", features = ["full"] }
reqwest = { version = "*", default-features = false, features = ["json"] }
dotenvy = "*"
utoipa = "*"
utoipa-swagger-ui = { version = "*", features = ["axum"] }
