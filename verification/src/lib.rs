//! Fan-speed control for a single-board computer: an ordered table of
//! temperature breakpoints, the lookup that turns a reading into a duty cycle,
//! the parsers for the table's text form and for the probe's reply, and the
//! decisions of the sense / decide / actuate cycle.

pub mod table;
pub mod text;
pub mod number;
pub mod config;
pub mod parse;
pub mod control;
pub mod options;
pub mod render;
