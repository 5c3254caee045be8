//! Analyses of a client's history.

pub mod balance;
pub mod forecast;
pub mod tick_spacing;
pub mod ticks;
pub mod twr;
