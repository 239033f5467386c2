//! An in-process store for per-author posts and a sharded relationship
//! graph, serving reverse-chronological timelines.
//!
//! Posts enter a mutable hot arena for the time [`Window`] they fall
//! into, are frozen into an immutable, sorted cold arena, and are then
//! read through a timeline that walks a set of cold arenas in timestamp
//! order. Follow/block queries against the relationship graph filter
//! each yielded entry.

mod arena;
mod blobs;
mod codec;
mod errors;
mod map;
mod order;
mod relationships;
mod shard;
mod sharding;
mod sorting;
mod span;
mod stats;
mod timeline;
mod usage;
mod window;

pub use arena::{Cold, ColdIter, Entry, Hot};
pub use blobs::{BlobStore, BlobStoreBuilder};
pub use errors::Error;
pub use map::UserMap;
pub use order::{Order, OrderedRange};
pub use relationships::Relationships;
pub use shard::Shard;
pub use sharding::Sharding;
pub use span::TimeSpan;
pub use stats::{HeapUsage, HeapWaste, Stats};
pub use timeline::{Slice, Timeline};
pub use usage::{ReportUsage, Usage};
pub use window::Window;

use vstd::prelude::*;

verus! {

/// A content id: globally unique per post.
pub type Cid = u64;

/// A timestamp; the unit is the caller's choice, as long as one window
/// duration fits in 32 bits of the same unit.
pub type Timestamp = u64;

/// A user (author or viewer) id.
pub type Uid = u32;

} // verus!
