//! An incrementally maintained reverse index: a lookup from a display name
//! back to the handle of the object that owns it, kept consistent with a
//! per-object attribute store by consuming that store's change log.

pub mod event;
pub mod laws;
pub mod maintain;
pub mod model;
pub mod name;
pub mod store;
pub mod table;
