use vstd::prelude::*;

verus! {

/// An opaque, stable identifier for a live object whose attributes are kept
/// in an attribute store.
#[derive(Debug, Clone, Copy, PartialEq, Eq, Hash, Structural)]
pub struct Entity {
    pub id: u64,
}

/// One entry of an attribute store's change log: the store appends one on
/// every insert, removal, or in-place overwrite of a handle's value.
#[derive(Debug, Clone, Copy, PartialEq, Eq, Structural)]
pub enum ChangeEvent {
    Inserted(u64),
    Removed(u64),
    Modified(u64),
}

/// The handle an event speaks of.
pub open spec fn handle_of(e: ChangeEvent) -> u64 {
    match e {
        ChangeEvent::Inserted(h) => h,
        ChangeEvent::Removed(h) => h,
        ChangeEvent::Modified(h) => h,
    }
}

/// Whether an event flags its handle for the insertion pass. A modification
/// counts as "old value gone, new value now present", so it flags both ways.
pub open spec fn flags_inserted(e: ChangeEvent) -> bool {
    e is Inserted || e is Modified
}

/// Whether an event flags its handle for the removal pass.
pub open spec fn flags_removed(e: ChangeEvent) -> bool {
    e is Removed || e is Modified
}

} // verus!
