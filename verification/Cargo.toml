[package]
name = "dungeon_note"
version = "0.1.0"
edition = "2021"
publish = false

[dependencies]
regex = "1"
katex = "0.4"
serde = { version = "1", features = ["derive"] }
elm_rs = "0.2"
warp = "0.3"
tokio = { version = "1", features = ["macros", "rt-multi-thread", "time"] }
async-stream = "0.3"
notify = "5"
notify-debouncer-mini = "0.2"
