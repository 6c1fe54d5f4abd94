[package]
name = "zone_streaming"
version = "0.1.0"
edition = "2021"
publish = false

[dependencies]
avian2d = { version = "0.1", default-features = false, features = ["2d", "f32", "parry-f32"] }
bevy = { version = "0.14", default-features = false, features = ["bevy_state"] }
rand = "=0.8.8"
rand_distr = "=0.4.3"
rand_pcg = "=0.3.1"
rand_seeder = "=0.2.3"
