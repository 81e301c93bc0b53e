//! Bus schedule solver: the earliest bus after a timestamp, and the earliest
//! timestamp at which every listed bus departs at its own offset.
pub mod big;
pub mod parse;
pub mod solve;

pub use big::{Big, BigIntGenerator};
pub use parse::{read_input, Bus, ScheduleError};
pub use solve::{part_one, part_two, solve_for};
