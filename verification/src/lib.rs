//! Hardware-counter benchmark recording and comparison.
//!
//! The library holds the verified core of a small benchmarking tool: scaling
//! of multiplexed hardware-counter samples, the result-set data model, its
//! persisted textual format, and the relative-difference comparison between
//! two result sets. Counter syscalls, process spawning, file I/O and table
//! rendering live outside the library and hand it plain values.

pub mod command_line;
pub mod counters;
pub mod delta;
pub mod digits;
pub mod json;
pub mod result_set;

pub use counters::{Measure, RawCount};
pub use result_set::ResultSet;
