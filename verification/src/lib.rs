//! An append-only record store over a flat, word-addressable memory region.
//!
//! Records are packed contiguously: a three-word header (tag, payload length,
//! checksum) followed by the payload words. A forward recovery scan rebuilds
//! the caller-owned tag directory after a cold start, tolerating partially
//! written tails, and appends resume behind any garbage left by an
//! interrupted write.

pub mod engine;
pub mod hasher;
pub mod laws;
pub mod layout;

pub use engine::Error;
pub use engine::InitStats;
pub use engine::RecordDesc;
pub use engine::Storage;
pub use hasher::StorageHasher32;
pub use layout::Header;
pub use layout::ERASED_WORD;
pub use layout::HEADER_LEN;
pub use layout::WORD_SIZE;
