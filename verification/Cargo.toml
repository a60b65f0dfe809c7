[package]
name = "midi_autocomplete"
version = "0.1.0"
edition = "2021"
publish = false

[dependencies]
gtk4 = "*"
midir = "*"
midly = { version = "0.5", default-features = false, features = ["std"] }
rodio = { version = "*", default-features = false, features = ["playback"] }
rustysynth = "1"
serde = { version = "1", features = ["derive"] }
toml = "*"
