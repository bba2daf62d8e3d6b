use crate::event::{flags_inserted, flags_removed, handle_of, ChangeEvent, Entity};
use vstd::prelude::*;

verus! {

/// The handles a batch of events flags for the insertion pass, in the order
/// they were first flagged, each handle once.
pub open spec fn insertion_order(events: Seq<ChangeEvent>) -> Seq<u64>
    decreases events.len(),
{
    if events.len() == 0 {
        Seq::empty()
    } else {
        let pre = insertion_order(events.drop_last());
        let e = events.last();
        if flags_inserted(e) && !pre.contains(handle_of(e)) {
            pre.push(handle_of(e))
        } else {
            pre
        }
    }
}

/// The handles a batch of events flags for the removal pass, in the order
/// they were first flagged, each handle once.
pub open spec fn removal_order(events: Seq<ChangeEvent>) -> Seq<u64>
    decreases events.len(),
{
    if events.len() == 0 {
        Seq::empty()
    } else {
        let pre = removal_order(events.drop_last());
        let e = events.last();
        if flags_removed(e) && !pre.contains(handle_of(e)) {
            pre.push(handle_of(e))
        } else {
            pre
        }
    }
}

/// The set of handles a batch of events flags for the insertion pass.
pub open spec fn inserted_set(events: Seq<ChangeEvent>) -> Set<u64> {
    Set::new(
        |h: u64|
            exists|i: int|
                0 <= i < events.len() && flags_inserted(#[trigger] events[i]) && handle_of(
                    events[i],
                ) == h,
    )
}

/// The reverse index after the removal pass: each flagged handle that still
/// has a current text in the store evicts whatever entry is keyed by that
/// (post-change) text; a handle with no current value evicts nothing.
pub open spec fn after_removal_pass(
    t: Map<Seq<char>, Entity>,
    cur: Map<u64, Seq<char>>,
    rem: Seq<u64>,
) -> Map<Seq<char>, Entity>
    decreases rem.len(),
{
    if rem.len() == 0 {
        t
    } else {
        let pre = after_removal_pass(t, cur, rem.drop_last());
        let h = rem.last();
        if cur.contains_key(h) {
            pre.remove(cur[h])
        } else {
            pre
        }
    }
}

/// The reverse index after the insertion pass: each flagged handle that has a
/// current text is written under that text, unconditionally, in pass order.
pub open spec fn after_insertion_pass(
    t: Map<Seq<char>, Entity>,
    cur: Map<u64, Seq<char>>,
    ins: Seq<u64>,
) -> Map<Seq<char>, Entity>
    decreases ins.len(),
{
    if ins.len() == 0 {
        t
    } else {
        let pre = after_insertion_pass(t, cur, ins.drop_last());
        let h = ins.last();
        if cur.contains_key(h) {
            pre.insert(cur[h], Entity { id: h })
        } else {
            pre
        }
    }
}

/// A name collision: an incoming handle claimed a text that the index already
/// mapped to a different handle. The incoming handle overwrites the entry.
pub ghost struct SpecCollision {
    pub incoming: Entity,
    pub text: Seq<char>,
    pub previous: Entity,
}

/// The collisions the insertion pass meets, in pass order: one for each write
/// that found the claimed text already mapped to a different handle.
pub open spec fn collisions_of(
    t: Map<Seq<char>, Entity>,
    cur: Map<u64, Seq<char>>,
    ins: Seq<u64>,
) -> Seq<SpecCollision>
    decreases ins.len(),
{
    if ins.len() == 0 {
        Seq::empty()
    } else {
        let pre = after_insertion_pass(t, cur, ins.drop_last());
        let cs = collisions_of(t, cur, ins.drop_last());
        let h = ins.last();
        if cur.contains_key(h) && pre.contains_key(cur[h]) && pre[cur[h]] != (Entity { id: h }) {
            cs.push(
                SpecCollision { incoming: Entity { id: h }, text: cur[h], previous: pre[cur[h]] },
            )
        } else {
            cs
        }
    }
}

/// The reverse index after one whole maintenance step over a batch of events:
/// the removal pass, then the insertion pass.
pub open spec fn step_result(
    t: Map<Seq<char>, Entity>,
    cur: Map<u64, Seq<char>>,
    events: Seq<ChangeEvent>,
) -> Map<Seq<char>, Entity> {
    after_insertion_pass(
        after_removal_pass(t, cur, removal_order(events)),
        cur,
        insertion_order(events),
    )
}

/// The collisions one whole maintenance step over a batch of events reports.
pub open spec fn step_collisions(
    t: Map<Seq<char>, Entity>,
    cur: Map<u64, Seq<char>>,
    events: Seq<ChangeEvent>,
) -> Seq<SpecCollision> {
    collisions_of(after_removal_pass(t, cur, removal_order(events)), cur, insertion_order(events))
}

} // verus!
