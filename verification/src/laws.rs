//! What holds of every river and of every log.

pub mod river;
pub mod log;
