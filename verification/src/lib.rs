//! An embedded key-value storage engine built on a log-structured merge
//! tree: writes land in a bounded in-memory buffer, are flushed into
//! immutable sorted runs at level 0, and runs are compacted level by level
//! to bound read cost and reclaim space from overwritten and deleted keys.
//!
//! Keys and values are raw byte strings. A reserved sentinel value (the
//! empty byte string) marks logical deletion; such a tombstone shadows
//! older copies of its key and is physically dropped only when a merge
//! reaches the deepest level.

pub mod buffer;
pub mod data;
pub mod keys;
pub mod laws;
pub mod level;
pub mod lsm;
pub mod merge;
pub mod probe;
pub mod run;
