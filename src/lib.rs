//! Decoding of frequency streams and the fail-fast dispatch of one tone per
//! decoded value.
//!
//! Two input formats are understood: newline-delimited decimal text, split
//! into lines by [`decode::split_lines`], and a raw stream of 4-byte
//! single-precision records, split by [`decode::split_records`]. The order in
//! which records are interpreted and their tones emitted, and where the run
//! stops, is decided by [`dispatch::Dispatcher`].

pub mod decode;
pub mod dispatch;
pub mod pipeline;
