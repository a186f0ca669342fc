//! Hourly glucose statistics from a continuous-glucose-monitor export:
//! cleaning raw readings, pooling them by hour of day, and deriving the
//! band series that a chart of the daily profile draws.

pub mod error;
pub mod glucose;
pub mod timestamp;
pub mod cleaner;
pub mod stats;
pub mod bands;
pub mod pipeline;
