//! A tank matchmaker: a registry of tanks weighted by how often they are
//! played, and two matchmaking algorithms that build balanced teams out of a
//! queue of tanks.

pub mod data;
pub mod tank;
pub mod matchmaker;
pub mod matchmaker2;
pub mod report;

mod clock;
mod match_slots;
mod match_sorting;
mod positions;
mod random;
mod team_mask;
mod team_slots;
mod text;
