//! Finds the most recent nightly on which every requested toolchain component
//! was available, from each component's published availability calendar.

pub mod calendar;
pub mod date;
pub mod resolve;
