//! Input data formats.

pub mod tomato;
