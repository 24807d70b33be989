//! A cache bounded by size, by age, or by both.
//!
//! Entries live in a keyed store and in a queue of keys ordered from the least
//! to the most recently used. Stale entries are dropped lazily, by the
//! operations that look at the cache, never by a timer.
pub mod cache;
pub mod entry;
pub mod iter;
pub mod keys;
pub mod laws;
pub mod model;
pub mod time;
pub mod walk;

pub use crate::cache::LruCache;
pub use crate::entry::{Entry, OccupiedEntry, VacantEntry};
pub use crate::iter::{Iter, NotifyIter, PeekIter, TimedEntry};
