[package]
name = "facefeature"
version = "0.1.0"
edition = "2021"
publish = false

[dependencies]
block2 = "0.6"
dispatch2 = "0.3"
objc2 = "0.6"
objc2-app-kit = "0.3"
objc2-av-foundation = "0.3"
objc2-core-foundation = "0.3"
objc2-core-graphics = "0.3"
objc2-core-media = "0.3"
objc2-core-video = "0.3"
objc2-foundation = "0.3"
objc2-quartz-core = "0.3"
objc2-vision = "0.3"
ort = { version = "2.0.0-rc.11", default-features = false, features = ["std", "coreml", "load-dynamic"] }
rusqlite = { version = "*", features = ["bundled"] }
serde = { version = "1", features = ["derive"] }
serde_json = "1"
sha2 = "0.10"
