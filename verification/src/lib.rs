//! Deduplication of images by perceptual similarity.
//!
//! The library holds the verified core of the engine: the perceptual-hash
//! distance metric, the textual line codec used by the log file, the hash
//! store with its scan-and-admit protocol, and the per-item pipeline
//! decisions. Image decoding, hashing, encoding and all file handling live
//! outside the library and hand it plain byte values.

use vstd::prelude::*;

pub mod codec;
pub mod engine;
pub mod formats;
pub mod phash;
pub mod store;

verus! {

/// Two hashes closer than this Hamming distance are treated as duplicates.
pub const DEFAULT_THRESHOLD: u32 = 10;

} // verus!
