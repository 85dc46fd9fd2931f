//! A lightweight work-item tracker built on a replicated, history-preserving
//! document: items and dependency edges live in a single structured snapshot
//! that independent actors edit concurrently and reconcile through a
//! content-addressable transport. The document model, the graph invariant
//! engine, the three-way merge, and the synchronization and claim protocols
//! are verified; the clock, the digest behind id generation, the reading of
//! calendar-text timestamps, and the character-level string conversions are
//! the trusted boundary.

pub mod clock;
pub mod codec;
pub mod errors;
pub mod ident;
pub mod laws;
pub mod merge;
pub mod model;
pub mod ops;
pub mod repo;
pub mod strutil;
pub mod sync;

pub use errors::TrackError;
pub use model::Dep;
pub use model::DepType;
pub use model::Item;
pub use model::ItemType;
pub use model::Status;
pub use model::Store;
