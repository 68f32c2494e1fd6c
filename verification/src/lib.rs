//! Scheduling core of a coffee machine that serves several brewing stations with one spout.

pub mod buttons;
pub mod leds;
pub mod recipes;
pub mod stations;
pub mod time;
