//! A rhythm-game chart library: parsing of the line-oriented chart text,
//! resolution of musical positions into absolute times, and the playback
//! engine that scrolls, judges key presses and drains timed events.
//!
//! All times are whole ticks (`TICKS_PER_SECOND` per second) and all tempi are
//! thousandths of a beat per minute, so every computation is exact integer
//! arithmetic.

pub mod bms_loader;
pub mod bms_parser;
pub mod bms_player;
pub mod controls;
pub mod decimal;
pub mod segment;
pub mod stable_sort;
pub mod textures;
pub mod timing;
