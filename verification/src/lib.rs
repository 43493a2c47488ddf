//! Resumable, fault-tolerant rescue of a failing block device into a sparse
//! image file.
//!
//! The library holds the rescue engine's logic: the tagged interval map that
//! records the state of every byte of the source, the map file that persists
//! that record between sessions, the phase scheduler that decides what to read
//! next, and the read splitter that turns a region into aligned requests.
//! All device and file I/O lives outside the library and hands in plain
//! values: offsets, lengths, buffers, and per-request results.

pub mod engine;
pub mod map_file;
pub mod parse_error;
pub mod phase;
pub mod tagged_range;
pub mod text;
