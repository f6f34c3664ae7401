//! Copy-forward encoding of an ordered thread of messages: every message is
//! re-expressed as literal byte spans and back-references into earlier
//! messages, and rendering the encoding gives the messages back exactly.
//!
//! Four matchers build the encoding, each behind [`CopyForward`]:
//! [`GreedySubstring`] scans every start of every earlier message;
//! [`HashedGreedy`] finds candidates through a rolling-hash index of windows;
//! [`HashedGreedyBinary`] measures them by bisection on hash equality;
//! [`CappedHashedGreedy`] bounds the index and the work per position.
pub mod cap_table;
pub mod capped;
pub mod capped_index;
pub mod coalesce;
pub mod copy_forward;
pub mod encoding;
pub mod greedy;
pub mod hashed;
pub mod hashed_binary;
pub mod index;
pub mod instrumentation;
pub mod matching;
pub mod render;
pub mod rolling;

pub use crate::capped::CappedHashedGreedy;
pub use crate::copy_forward::CopyForward;
pub use crate::encoding::{GreedySubstringConfig, Segment, SegmentView};
pub use crate::greedy::GreedySubstring;
pub use crate::hashed::HashedGreedy;
pub use crate::hashed_binary::HashedGreedyBinary;
