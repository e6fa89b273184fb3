//! A log-structured key-value store engine.
//!
//! The engine keeps an in-memory index from keys to the location of the
//! command that defines their current value inside an append-only,
//! segmented command log. This crate holds the bookkeeping of that engine:
//! segment naming, replay of the log at start-up, the write path, the
//! lookup path and compaction. Every decision is a verified function from
//! plain values to plain values; reading and writing the segment files is
//! left to the caller, which performs the actions these functions return.

pub mod command;
pub mod error;
pub mod index;
pub mod kv;
pub mod laws;
pub mod log;
pub mod recovery;
pub mod segment;

pub use command::{Command, CommandPosition};
pub use error::KvsError;
pub use index::Index;
pub use kv::{has_reader, is_openable, read_value, CompactionPlan, KvStore, COMPACTION_THRESHOLD};
pub use recovery::{load_segment, SegmentLog};
pub use segment::{decimal_string, parse_segment_id, segment_path, sorted_segments};
