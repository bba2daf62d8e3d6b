use crate::event::{flags_inserted, handle_of, ChangeEvent, Entity};
use crate::model::{
    after_insertion_pass, after_removal_pass, collisions_of, inserted_set, insertion_order,
    removal_order, step_collisions, step_result, SpecCollision,
};
use vstd::prelude::*;

verus! {

/// No two live handles carry the same text.
pub open spec fn injective_texts(cur: Map<u64, Seq<char>>) -> bool {
    forall|h1: u64, h2: u64|
        #![trigger cur[h1], cur[h2]]
        cur.contains_key(h1) && cur.contains_key(h2) && h1 != h2 ==> cur[h1] != cur[h2]
}

/// The intended invariant between index and store: every entry's handle is
/// live and its current text in the store is the entry's key.
pub open spec fn table_consistent(t: Map<Seq<char>, Entity>, cur: Map<u64, Seq<char>>) -> bool {
    forall|k: Seq<char>|
        #[trigger] t.contains_key(k) ==> cur.contains_key(t[k].id) && cur[t[k].id] == k
}

proof fn lemma_insertion_order_facts(events: Seq<ChangeEvent>)
    ensures
        forall|a: int, b: int|
            0 <= a < b < insertion_order(events).len() ==> insertion_order(events)[a]
                != insertion_order(events)[b],
        forall|h: u64|
            insertion_order(events).contains(h) <==> inserted_set(events).contains(h),
    decreases events.len(),
{
    let ord = insertion_order(events);
    if events.len() == 0 {
        assert forall|h: u64| !inserted_set(events).contains(h) by {}
        assert forall|h: u64| !ord.contains(h) by {}
    } else {
        let pre_ev = events.drop_last();
        let e = events.last();
        let pord = insertion_order(pre_ev);
        lemma_insertion_order_facts(pre_ev);
        assert forall|h: u64|
            inserted_set(events).contains(h) <==> (inserted_set(pre_ev).contains(h) || (
            flags_inserted(e) && handle_of(e) == h)) by {
            if inserted_set(events).contains(h) {
                let i = choose|i: int|
                    0 <= i < events.len() && flags_inserted(#[trigger] events[i]) && handle_of(
                        events[i],
                    ) == h;
                if i < events.len() - 1 {
                    assert(pre_ev[i] == events[i]);
                    assert(inserted_set(pre_ev).contains(h));
                }
            }
            if inserted_set(pre_ev).contains(h) {
                let i = choose|i: int|
                    0 <= i < pre_ev.len() && flags_inserted(#[trigger] pre_ev[i]) && handle_of(
                        pre_ev[i],
                    ) == h;
                assert(events[i] == pre_ev[i]);
                assert(inserted_set(events).contains(h));
            }
            if flags_inserted(e) && handle_of(e) == h {
                assert(events[events.len() - 1] == e);
                assert(inserted_set(events).contains(h));
            }
        }
        if flags_inserted(e) && !pord.contains(handle_of(e)) {
            assert(ord == pord.push(handle_of(e)));
            assert forall|a: int, b: int| 0 <= a < b < ord.len() implies ord[a] != ord[b] by {
                if b < pord.len() {
                    assert(ord[a] == pord[a]);
                    assert(ord[b] == pord[b]);
                } else {
                    assert(ord[b] == handle_of(e));
                    assert(ord[a] == pord[a]);
                    assert(pord.contains(pord[a]));
                }
            }
            assert forall|h: u64| ord.contains(h) <==> inserted_set(events).contains(h) by {
                if ord.contains(h) {
                    let i = choose|i: int| 0 <= i < ord.len() && ord[i] == h;
                    if i < pord.len() {
                        assert(pord.contains(h));
                    }
                }
                if inserted_set(events).contains(h) {
                    if inserted_set(pre_ev).contains(h) {
                        let i = choose|i: int| 0 <= i < pord.len() && pord[i] == h;
                        assert(ord[i] == h);
                    } else {
                        assert(ord[ord.len() - 1] == h);
                    }
                }
            }
        } else {
            assert(ord == pord);
            assert forall|h: u64| ord.contains(h) <==> inserted_set(events).contains(h) by {
                if inserted_set(events).contains(h) {
                    if !inserted_set(pre_ev).contains(h) {
                        assert(flags_inserted(e) && handle_of(e) == h);
                        assert(pord.contains(h));
                    }
                }
            }
        }
    }
}

proof fn lemma_removal_pass_submap(
    t: Map<Seq<char>, Entity>,
    cur: Map<u64, Seq<char>>,
    rem: Seq<u64>,
)
    ensures
        forall|k: Seq<char>|
            #[trigger] after_removal_pass(t, cur, rem).contains_key(k) ==> t.contains_key(k)
                && after_removal_pass(t, cur, rem)[k] == t[k],
    decreases rem.len(),
{
    if rem.len() > 0 {
        lemma_removal_pass_submap(t, cur, rem.drop_last());
        let pre = after_removal_pass(t, cur, rem.drop_last());
        let r = after_removal_pass(t, cur, rem);
        assert forall|k: Seq<char>| #[trigger] r.contains_key(k) implies t.contains_key(k) && r[k]
            == t[k] by {
            assert(pre.contains_key(k) && pre[k] == r[k]);
            assert(t.contains_key(k) && pre[k] == t[k]);
        }
    }
}

proof fn lemma_insertion_fold_no_collision(
    t: Map<Seq<char>, Entity>,
    cur: Map<u64, Seq<char>>,
    ins: Seq<u64>,
)
    requires
        table_consistent(t, cur),
        injective_texts(cur),
        forall|a: int, b: int| 0 <= a < b < ins.len() ==> ins[a] != ins[b],
    ensures
        table_consistent(after_insertion_pass(t, cur, ins), cur),
        collisions_of(t, cur, ins) == Seq::<SpecCollision>::empty(),
        forall|j: int|
            0 <= j < ins.len() && cur.contains_key(#[trigger] ins[j]) ==> after_insertion_pass(
                t,
                cur,
                ins,
            ).contains_key(cur[ins[j]]) && after_insertion_pass(t, cur, ins)[cur[ins[j]]]
                == (Entity { id: ins[j] }),
    decreases ins.len(),
{
    if ins.len() == 0 {
        assert(collisions_of(t, cur, ins) =~= Seq::<SpecCollision>::empty());
    } else {
        let pre_ins = ins.drop_last();
        let h = ins.last();
        lemma_insertion_fold_no_collision(t, cur, pre_ins);
        let pre_r = after_insertion_pass(t, cur, pre_ins);
        let r = after_insertion_pass(t, cur, ins);
        if cur.contains_key(h) {
            let k = cur[h];
            if pre_r.contains_key(k) {
                assert(cur.contains_key(pre_r[k].id) && cur[pre_r[k].id] == k);
                if pre_r[k].id != h {
                    assert(cur[pre_r[k].id] != cur[h]);
                    assert(false);
                }
                assert(pre_r[k] == Entity { id: h });
            }
            assert(collisions_of(t, cur, ins) == collisions_of(t, cur, pre_ins));
            assert(r == pre_r.insert(k, Entity { id: h }));
            assert forall|j: int|
                0 <= j < ins.len() && cur.contains_key(#[trigger] ins[j]) implies r.contains_key(
                cur[ins[j]],
            ) && r[cur[ins[j]]] == Entity { id: ins[j] } by {
                if j < ins.len() - 1 {
                    assert(pre_ins[j] == ins[j]);
                    assert(ins[j] != h);
                    assert(cur[ins[j]] != cur[h]);
                }
            }
        } else {
            assert(r == pre_r);
            assert forall|j: int|
                0 <= j < ins.len() && cur.contains_key(#[trigger] ins[j]) implies r.contains_key(
                cur[ins[j]],
            ) && r[cur[ins[j]]] == Entity { id: ins[j] } by {
                if j < ins.len() - 1 {
                    assert(pre_ins[j] == ins[j]);
                }
            }
        }
    }
}

/// No-collision uniqueness: over a store whose live handles carry
/// pairwise-distinct texts, and an index consistent with that store, a step
/// maps the current text of every handle it flagged inserted to exactly that
/// handle, and reports no collision.
pub proof fn lemma_no_collision_uniqueness(
    t: Map<Seq<char>, Entity>,
    cur: Map<u64, Seq<char>>,
    events: Seq<ChangeEvent>,
)
    requires
        injective_texts(cur),
        table_consistent(t, cur),
    ensures
        forall|h: u64|
            inserted_set(events).contains(h) && #[trigger] cur.contains_key(h) ==> step_result(
                t,
                cur,
                events,
            ).contains_key(cur[h]) && step_result(t, cur, events)[cur[h]] == (Entity { id: h }),
        step_collisions(t, cur, events) == Seq::<SpecCollision>::empty(),
{
    let rem = removal_order(events);
    let ins = insertion_order(events);
    let t1 = after_removal_pass(t, cur, rem);
    lemma_removal_pass_submap(t, cur, rem);
    assert(table_consistent(t1, cur));
    lemma_insertion_order_facts(events);
    lemma_insertion_fold_no_collision(t1, cur, ins);
    assert forall|h: u64|
        inserted_set(events).contains(h) && #[trigger] cur.contains_key(h) implies step_result(
        t,
        cur,
        events,
    ).contains_key(cur[h]) && step_result(t, cur, events)[cur[h]] == Entity { id: h } by {
        assert(ins.contains(h));
        let j = choose|j: int| 0 <= j < ins.len() && ins[j] == h;
    }
}

/// Idempotent empty step: a step that drains no new events leaves the index
/// exactly as it was, and reports no collision.
pub proof fn lemma_idempotent_empty_step(t: Map<Seq<char>, Entity>, cur: Map<u64, Seq<char>>)
    ensures
        step_result(t, cur, Seq::empty()) == t,
        step_collisions(t, cur, Seq::empty()) == Seq::<SpecCollision>::empty(),
{
}

/// Rename as modify: one modification event re-keys the handle under its
/// current (post-change) text, without a collision. The eviction reads the
/// handle's current text, so of the old text the step itself guarantees only
/// what already held: here, that no entry was keyed by it before.
pub proof fn lemma_rename_as_modify(
    t: Map<Seq<char>, Entity>,
    cur: Map<u64, Seq<char>>,
    h: u64,
    a: Seq<char>,
    b: Seq<char>,
)
    requires
        cur.contains_key(h),
        cur[h] == b,
        a != b,
        !t.contains_key(a),
    ensures
        step_result(t, cur, seq![ChangeEvent::Modified(h)]).contains_key(b),
        step_result(t, cur, seq![ChangeEvent::Modified(h)])[b] == (Entity { id: h }),
        !step_result(t, cur, seq![ChangeEvent::Modified(h)]).contains_key(a),
        step_collisions(t, cur, seq![ChangeEvent::Modified(h)]) == Seq::<SpecCollision>::empty(),
{
    let ev = seq![ChangeEvent::Modified(h)];
    assert(ev.drop_last() =~= Seq::<ChangeEvent>::empty());
    assert(ev.last() == ChangeEvent::Modified(h));
    let ord = Seq::<u64>::empty().push(h);
    assert(insertion_order(Seq::<ChangeEvent>::empty()) == Seq::<u64>::empty());
    assert(removal_order(Seq::<ChangeEvent>::empty()) == Seq::<u64>::empty());
    assert(!Seq::<u64>::empty().contains(h));
    assert(removal_order(ev) == ord);
    assert(insertion_order(ev) == ord);
    assert(ord.drop_last() =~= Seq::<u64>::empty());
    assert(ord.last() == h);
    let t1 = after_removal_pass(t, cur, ord);
    assert(after_removal_pass(t, cur, Seq::<u64>::empty()) == t);
    assert(t1 == t.remove(b));
    assert(after_insertion_pass(t1, cur, Seq::<u64>::empty()) == t1);
    assert(collisions_of(t1, cur, Seq::<u64>::empty()) == Seq::<SpecCollision>::empty());
    assert(after_insertion_pass(t1, cur, ord) == t.remove(b).insert(b, Entity { id: h }));
    assert(collisions_of(t1, cur, ord) =~= Seq::<SpecCollision>::empty());
}

/// Collision resolution: two distinct handles inserted in one step under one
/// text leave the text mapped to exactly one of them — the later write of the
/// pass — and the step reports exactly one collision, naming the incoming
/// handle, the text, and the handle written just before.
pub proof fn lemma_collision_resolution(
    t: Map<Seq<char>, Entity>,
    cur: Map<u64, Seq<char>>,
    h1: u64,
    h2: u64,
    x: Seq<char>,
)
    requires
        h1 != h2,
        cur.contains_key(h1),
        cur.contains_key(h2),
        cur[h1] == x,
        cur[h2] == x,
        !t.contains_key(x),
    ensures
        step_result(t, cur, seq![ChangeEvent::Inserted(h1), ChangeEvent::Inserted(h2)]).contains_key(x),
        step_result(t, cur, seq![ChangeEvent::Inserted(h1), ChangeEvent::Inserted(h2)])[x]
            == (Entity { id: h2 }) || step_result(
            t,
            cur,
            seq![ChangeEvent::Inserted(h1), ChangeEvent::Inserted(h2)],
        )[x] == (Entity { id: h1 }),
        step_result(t, cur, seq![ChangeEvent::Inserted(h1), ChangeEvent::Inserted(h2)])[x]
            == (Entity { id: h2 }),
        step_collisions(t, cur, seq![ChangeEvent::Inserted(h1), ChangeEvent::Inserted(h2)]).len()
            == 1,
        step_collisions(t, cur, seq![ChangeEvent::Inserted(h1), ChangeEvent::Inserted(h2)])[0]
            == (SpecCollision { incoming: (Entity { id: h2 }), text: x, previous: (Entity { id: h1 }) }),
{
    let ev = seq![ChangeEvent::Inserted(h1), ChangeEvent::Inserted(h2)];
    let ev1 = seq![ChangeEvent::Inserted(h1)];
    assert(ev.drop_last() =~= ev1);
    assert(ev.last() == ChangeEvent::Inserted(h2));
    assert(ev1.drop_last() =~= Seq::<ChangeEvent>::empty());
    assert(ev1.last() == ChangeEvent::Inserted(h1));
    let ord1 = Seq::<u64>::empty().push(h1);
    assert(insertion_order(Seq::<ChangeEvent>::empty()) == Seq::<u64>::empty());
    assert(removal_order(Seq::<ChangeEvent>::empty()) == Seq::<u64>::empty());
    assert(!Seq::<u64>::empty().contains(h1));
    assert(insertion_order(ev1) == ord1);
    assert(removal_order(ev1) == Seq::<u64>::empty());
    assert forall|g: u64| ord1.contains(g) implies g == h1 by {
        let i = choose|i: int| 0 <= i < ord1.len() && ord1[i] == g;
        assert(i == 0);
    }
    assert(!ord1.contains(h2));
    let ord = ord1.push(h2);
    assert(insertion_order(ev) == ord);
    assert(removal_order(ev) == Seq::<u64>::empty());
    assert(after_removal_pass(t, cur, Seq::<u64>::empty()) == t);
    assert(ord.drop_last() =~= ord1);
    assert(ord1.drop_last() =~= Seq::<u64>::empty());
    let r1 = after_insertion_pass(t, cur, ord1);
    assert(after_insertion_pass(t, cur, Seq::<u64>::empty()) == t);
    assert(collisions_of(t, cur, Seq::<u64>::empty()) == Seq::<SpecCollision>::empty());
    assert(r1 == t.insert(x, Entity { id: h1 }));
    assert(collisions_of(t, cur, ord1) =~= Seq::<SpecCollision>::empty());
    let r = after_insertion_pass(t, cur, ord);
    assert(r == r1.insert(x, Entity { id: h2 }));
    assert(r1.contains_key(x) && r1[x] == Entity { id: h1 });
    assert(r1[x] != (Entity { id: h2 }));
    assert(collisions_of(t, cur, ord) == Seq::<SpecCollision>::empty().push(
        SpecCollision { incoming: Entity { id: h2 }, text: x, previous: Entity { id: h1 } },
    ));
}

/// True-deletion gap: a handle deleted outright has no current value, so the
/// removal pass cannot locate the entry it left behind; a step that drains
/// only that deletion changes nothing, and any stale entry keyed by the
/// handle's old text persists.
pub proof fn lemma_true_deletion_gap(
    t: Map<Seq<char>, Entity>,
    cur: Map<u64, Seq<char>>,
    h: u64,
)
    requires
        !cur.contains_key(h),
    ensures
        step_result(t, cur, seq![ChangeEvent::Removed(h)]) == t,
        step_collisions(t, cur, seq![ChangeEvent::Removed(h)]) == Seq::<SpecCollision>::empty(),
{
    let ev = seq![ChangeEvent::Removed(h)];
    assert(ev.drop_last() =~= Seq::<ChangeEvent>::empty());
    assert(ev.last() == ChangeEvent::Removed(h));
    let ord = Seq::<u64>::empty().push(h);
    assert(insertion_order(Seq::<ChangeEvent>::empty()) == Seq::<u64>::empty());
    assert(removal_order(Seq::<ChangeEvent>::empty()) == Seq::<u64>::empty());
    assert(!Seq::<u64>::empty().contains(h));
    assert(removal_order(ev) == ord);
    assert(insertion_order(ev) == Seq::<u64>::empty());
    assert(ord.drop_last() =~= Seq::<u64>::empty());
    assert(ord.last() == h);
    assert(after_removal_pass(t, cur, Seq::<u64>::empty()) == t);
    assert(after_removal_pass(t, cur, ord) == t);
    assert(after_insertion_pass(t, cur, Seq::<u64>::empty()) == t);
    assert(collisions_of(t, cur, Seq::<u64>::empty()) =~= Seq::<SpecCollision>::empty());
}

} // verus!
