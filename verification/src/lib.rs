//! A guard patrols a rectangular grid room: it walks forward until an
//! obstacle blocks it, turns clockwise and tries again, and repeats
//! until it leaves the grid, cannot move at all, or re-enters a
//! (facing, position) state it has already occupied, which makes the
//! patrol an endless loop.  The crate parses rooms from text, replays
//! patrols, and determines, for every cell the baseline patrol visits,
//! whether a new obstacle there would force a loop.

pub mod parse;
pub mod records;
pub mod render;
pub mod room;
pub mod runner;
pub mod sim;
pub mod step;
