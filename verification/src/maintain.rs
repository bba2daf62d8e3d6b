use crate::event::{ChangeEvent, Entity};
use crate::model::{
    after_insertion_pass, after_removal_pass, collisions_of, insertion_order, removal_order,
    step_collisions, step_result, SpecCollision,
};
use crate::name::Name;
use crate::store::{ChangeCursor, NameStore};
use crate::table::NameTable;
use vstd::prelude::*;

verus! {

/// A name collision the insertion pass met: the incoming handle claimed a
/// text that the index already mapped to a different handle. The incoming
/// handle overwrote the entry; a collision is a logged anomaly, not a fault.
#[derive(Debug)]
pub struct Collision {
    pub incoming: Entity,
    pub name: Name,
    pub previous: Entity,
}

impl View for Collision {
    type V = SpecCollision;

    open spec fn view(&self) -> SpecCollision {
        SpecCollision { incoming: self.incoming, text: self.name@, previous: self.previous }
    }
}

/// The maintenance unit that keeps a `NameTable` up to date: once per
/// scheduling step it drains the change log since its private cursor,
/// classifies the affected handles into "removed" and "inserted" working
/// sets, and applies the matching edits to the table.
#[derive(Debug)]
pub struct NameTableBookkeeping {
    changes: ChangeCursor,
    inserted: Vec<u64>,
    removed: Vec<u64>,
}

fn handles_contain(v: &Vec<u64>, x: u64) -> (b: bool)
    ensures
        b == v@.contains(x),
{
    let n = v.len();
    let mut i: usize = 0;
    while i < n
        invariant
            n == v@.len(),
            0 <= i <= n,
            forall|j: int| 0 <= j < i ==> v@[j] != x,
        decreases n - i,
    {
        if v[i] == x {
            return true;
        }
        i += 1;
    }
    false
}

/// Flag one event's handle into the working sets, keeping each set free of
/// duplicates: same-step changes to one handle collapse into one membership.
fn record_event(inserted: &mut Vec<u64>, removed: &mut Vec<u64>, e: ChangeEvent, Ghost(pre): Ghost<
    Seq<ChangeEvent>,
>)
    requires
        old(inserted)@ == insertion_order(pre),
        old(removed)@ == removal_order(pre),
    ensures
        final(inserted)@ == insertion_order(pre.push(e)),
        final(removed)@ == removal_order(pre.push(e)),
{
    proof {
        assert(pre.push(e).drop_last() =~= pre);
        assert(pre.push(e).last() == e);
    }
    match e {
        ChangeEvent::Inserted(h) => {
            if !handles_contain(inserted, h) {
                inserted.push(h);
            }
        },
        ChangeEvent::Removed(h) => {
            if !handles_contain(removed, h) {
                removed.push(h);
            }
        },
        ChangeEvent::Modified(h) => {
            if !handles_contain(removed, h) {
                removed.push(h);
            }
            if !handles_contain(inserted, h) {
                inserted.push(h);
            }
        },
    }
}

/// The removal pass: every flagged handle that still has a current value in
/// the store erases whatever table entry is keyed by that (post-change)
/// value. A handle with no current value — a true deletion — cannot be
/// located this way and erases nothing.
fn removal_pass(removed: &Vec<u64>, store: &NameStore, table: &mut NameTable)
    requires
        store.wf(),
        old(table).wf(),
    ensures
        final(table).wf(),
        final(table)@ == after_removal_pass(old(table)@, store.current(), removed@),
{
    let ghost t0 = table@;
    let ghost cur = store.current();
    let n = removed.len();
    let mut i: usize = 0;
    while i < n
        invariant
            n == removed@.len(),
            0 <= i <= n,
            store.wf(),
            table.wf(),
            cur == store.current(),
            table@ == after_removal_pass(t0, cur, removed@.take(i as int)),
        decreases n - i,
    {
        proof {
            assert(removed@.take(i as int + 1).drop_last() =~= removed@.take(i as int));
            assert(removed@.take(i as int + 1).last() == removed@[i as int]);
        }
        let h = removed[i];
        match store.current_value(h) {
            Some(name) => {
                table.remove_text(&name);
            },
            None => {},
        }
        i += 1;
    }
    proof {
        assert(removed@.take(n as int) =~= removed@);
    }
}

/// The insertion pass: every flagged handle that has a current value is
/// written into the table under that value, in pass order, unconditionally.
/// A write that finds the text already mapped to a different handle reports
/// a collision and overwrites; processing always completes.
fn insertion_pass(inserted: &Vec<u64>, store: &NameStore, table: &mut NameTable) -> (warnings: Vec<
    Collision,
>)
    requires
        store.wf(),
        old(table).wf(),
    ensures
        final(table).wf(),
        final(table)@ == after_insertion_pass(old(table)@, store.current(), inserted@),
        warnings@.map_values(|c: Collision| c@) == collisions_of(
            old(table)@,
            store.current(),
            inserted@,
        ),
{
    let ghost t0 = table@;
    let ghost cur = store.current();
    let mut warnings: Vec<Collision> = Vec::new();
    let n = inserted.len();
    let mut i: usize = 0;
    proof {
        assert(warnings@.map_values(|c: Collision| c@) =~= collisions_of(
            t0,
            cur,
            inserted@.take(0),
        ));
    }
    while i < n
        invariant
            n == inserted@.len(),
            0 <= i <= n,
            store.wf(),
            table.wf(),
            cur == store.current(),
            table@ == after_insertion_pass(t0, cur, inserted@.take(i as int)),
            warnings@.map_values(|c: Collision| c@) == collisions_of(
                t0,
                cur,
                inserted@.take(i as int),
            ),
        decreases n - i,
    {
        proof {
            assert(inserted@.take(i as int + 1).drop_last() =~= inserted@.take(i as int));
            assert(inserted@.take(i as int + 1).last() == inserted@[i as int]);
        }
        let h = inserted[i];
        match store.current_value(h) {
            Some(name) => {
                let ent = Entity { id: h };
                let name_kept = name.clone();
                let prev = table.insert_pair(name, ent);
                match prev {
                    Some(p) => {
                        if p.id != h {
                            let ghost w0 = warnings@;
                            warnings.push(Collision { incoming: ent, name: name_kept, previous: p });
                            proof {
                                assert(warnings@.map_values(|c: Collision| c@) =~= w0.map_values(
                                    |c: Collision| c@,
                                ).push(
                                    SpecCollision { incoming: ent, text: cur[h], previous: p },
                                ));
                            }
                        }
                    },
                    None => {},
                }
            },
            None => {},
        }
        i += 1;
    }
    proof {
        assert(inserted@.take(n as int) =~= inserted@);
    }
    warnings
}

impl NameTableBookkeeping {
    /// How far into the store's change log this maintainer has read.
    pub closed spec fn cursor(&self) -> int {
        self.changes.position()
    }

    /// A maintainer whose private cursor starts at the end of the store's
    /// current log: it will consume exactly the events appended after this.
    pub fn new(store: &NameStore) -> (r: NameTableBookkeeping)
        ensures
            r.cursor() == store.log().len(),
    {
        NameTableBookkeeping {
            changes: store.register_reader(),
            inserted: Vec::new(),
            removed: Vec::new(),
        }
    }

    /// One maintenance step: drain every change-log entry appended since the
    /// last step, advancing the cursor; classify the affected handles; run
    /// the removal pass, then the insertion pass. Returns the collisions the
    /// insertion pass met, in pass order, for the caller to log; there is no
    /// failure path.
    pub fn run(&mut self, store: &NameStore, table: &mut NameTable) -> (warnings: Vec<Collision>)
        requires
            store.wf(),
            old(table).wf(),
            old(self).cursor() <= store.log().len(),
        ensures
            final(self).cursor() == store.log().len(),
            final(table).wf(),
            final(table)@ == step_result(
                old(table)@,
                store.current(),
                store.log().skip(old(self).cursor()),
            ),
            warnings@.map_values(|c: Collision| c@) == step_collisions(
                old(table)@,
                store.current(),
                store.log().skip(old(self).cursor()),
            ),
    {
        let ghost c0 = self.changes.position();
        proof {
            self.changes.lemma_cursor_position();
        }
        // clear any left-over data: the working sets are reused buffers
        self.inserted.clear();
        self.removed.clear();
        proof {
            assert(store.log().subrange(c0, c0) =~= Seq::<ChangeEvent>::empty());
        }
        // record which changes have happened since the step before
        let n = store.log_len();
        while self.changes.pos < n
            invariant
                n == store.log().len(),
                store.wf(),
                0 <= c0 <= n,
                c0 == old(self).cursor(),
                c0 <= self.changes.pos as int <= n,
                self.inserted@ == insertion_order(store.log().subrange(c0, self.changes.pos as int)),
                self.removed@ == removal_order(store.log().subrange(c0, self.changes.pos as int)),
            decreases n - self.changes.pos,
        {
            let ghost pre = store.log().subrange(c0, self.changes.pos as int);
            let e = store.log_at(self.changes.pos);
            proof {
                let l = store.log();
                let p = self.changes.pos as int;
                assert(e == l[p]);
                assert forall|k: int| 0 <= k < p + 1 - c0 implies l.subrange(c0, p + 1)[k]
                    == pre.push(e)[k] by {
                    if k < p - c0 {
                        assert(pre[k] == l[c0 + k]);
                        assert(l.subrange(c0, p + 1)[k] == l[c0 + k]);
                    } else {
                        assert(l.subrange(c0, p + 1)[k] == l[p]);
                    }
                }
                assert(store.log().subrange(c0, self.changes.pos as int + 1) =~= pre.push(e));
            }
            record_event(&mut self.inserted, &mut self.removed, e, Ghost(pre));
            self.changes.pos = self.changes.pos + 1;
        }
        proof {
            self.changes.lemma_cursor_position();
            assert(store.log().subrange(c0, n as int) =~= store.log().skip(c0));
        }
        removal_pass(&self.removed, store, table);
        insertion_pass(&self.inserted, store, table)
    }

    /// One maintenance step over an explicitly handed batch of events, for a
    /// caller that drains some other store's change log itself: classify the
    /// batch, then run the two passes against the given current values. The
    /// private cursor is not consulted and does not move.
    pub fn step(&mut self, events: &Vec<ChangeEvent>, store: &NameStore, table: &mut NameTable) -> (warnings: Vec<
        Collision,
    >)
        requires
            store.wf(),
            old(table).wf(),
        ensures
            final(self).cursor() == old(self).cursor(),
            final(table).wf(),
            final(table)@ == step_result(old(table)@, store.current(), events@),
            warnings@.map_values(|c: Collision| c@) == step_collisions(
                old(table)@,
                store.current(),
                events@,
            ),
    {
        // clear any left-over data: the working sets are reused buffers
        self.inserted.clear();
        self.removed.clear();
        proof {
            assert(events@.take(0) =~= Seq::<ChangeEvent>::empty());
        }
        let n = events.len();
        let mut i: usize = 0;
        while i < n
            invariant
                n == events@.len(),
                0 <= i <= n,
                store.wf(),
                self.changes == old(self).changes,
                self.inserted@ == insertion_order(events@.take(i as int)),
                self.removed@ == removal_order(events@.take(i as int)),
            decreases n - i,
        {
            let ghost pre = events@.take(i as int);
            let e = events[i];
            proof {
                assert(events@.take(i as int + 1) =~= pre.push(e));
            }
            record_event(&mut self.inserted, &mut self.removed, e, Ghost(pre));
            i += 1;
        }
        proof {
            assert(events@.take(n as int) =~= events@);
        }
        removal_pass(&self.removed, store, table);
        insertion_pass(&self.inserted, store, table)
    }
}

} // verus!
