//! A bounded key-value store with per-entry time-to-live expiration.
//!
//! The store holds at most a fixed number of entries, chosen at construction.
//! Each entry carries an absolute expiration instant; an entry is expired as
//! soon as the current time reaches that instant. Lookups are destructive:
//! `get` removes the entry it finds, whether or not it is still valid. At full
//! capacity, `put` admits a new entry only by evicting some already-expired
//! entry; if none is expired, the write is rejected and the store is left
//! unchanged.

mod clock;
pub mod laws;
pub mod store;

pub use store::Entry;
pub use store::Lru;
