//! Ranking statistics for sequences of timed puzzle-solving attempts.
//!
//! The library turns a chronologically unordered collection of solve
//! records into windowed records that carry a rolling average-of-5
//! metric (the trimmed mean of the five most recent attempts, dropping
//! the best and worst), and reorders the result by one of four
//! policies: recency, reverse recency, best metric, or worst metric.
//!
//! Durations are held as integers in thousandths of the domain unit
//! (milliseconds when solves are timed in seconds), so every
//! computation here is exact; conversion from and to fractional
//! representations is the caller's concern.

pub mod laws;
pub mod policy;
pub mod sorting;
pub mod types;
pub mod window;
