[package]
name = "coffee_stations"
version = "0.1.0"
edition = "2021"
publish = false

[dependencies]
cortex-m-rt = "0.7"
defmt = "0.3"
defmt-rtt = "0.4"
embassy-executor = { version = "0.5", features = ["arch-std", "executor-thread", "integrated-timers"] }
embassy-futures = "0.1"
embassy-stm32 = { version = "0.1", features = ["stm32g431cb", "exti", "time-driver-any"] }
embassy-sync = "0.5"
embassy-time = { version = "0.3", features = ["tick-hz-1_000_000"] }
heapless = "0.8"
panic-probe = "0.3"
static_cell = "2"

[dev-dependencies]
embassy-time = { version = "0.3", features = ["std"] }
