use crate::event::ChangeEvent;
use crate::name::Name;
use vstd::prelude::*;

verus! {

/// No two entries carry the same handle.
pub open spec fn handles_unique(s: Seq<(u64, Name)>) -> bool {
    forall|i: int, j: int|
        0 <= i < j < s.len() ==> (#[trigger] s[i]).0 != (#[trigger] s[j]).0
}

/// The map an entry list stands for: each handle to the text stored with it.
pub open spec fn values_map(s: Seq<(u64, Name)>) -> Map<u64, Seq<char>> {
    Map::new(
        |h: u64| exists|i: int| 0 <= i < s.len() && (#[trigger] s[i]).0 == h,
        |h: u64| s[choose|i: int| 0 <= i < s.len() && (#[trigger] s[i]).0 == h].1@,
    )
}

proof fn lemma_values_map_at(s: Seq<(u64, Name)>, i: int)
    requires
        handles_unique(s),
        0 <= i < s.len(),
    ensures
        values_map(s).contains_key(s[i].0),
        values_map(s)[s[i].0] == s[i].1@,
{
    let h = s[i].0;
    assert(values_map(s).contains_key(h));
    let j = choose|j: int| 0 <= j < s.len() && (#[trigger] s[j]).0 == h;
    if j < i {
        assert(s[j].0 != s[i].0);
    } else if i < j {
        assert(s[i].0 != s[j].0);
    }
    assert(j == i);
}

proof fn lemma_values_map_remove(s: Seq<(u64, Name)>, i: int)
    requires
        handles_unique(s),
        0 <= i < s.len(),
    ensures
        handles_unique(s.remove(i)),
        values_map(s.remove(i)) =~= values_map(s).remove(s[i].0),
{
    let s2 = s.remove(i);
    let h = s[i].0;
    assert forall|a: int, b: int| 0 <= a < b < s2.len() implies (#[trigger] s2[a]).0 != (
    #[trigger] s2[b]).0 by {
        let a0 = if a < i {
            a
        } else {
            a + 1
        };
        let b0 = if b < i {
            b
        } else {
            b + 1
        };
        assert(s2[a] == s[a0]);
        assert(s2[b] == s[b0]);
        assert(s[a0].0 != s[b0].0);
    }
    assert forall|h2: u64| #[trigger] values_map(s2).contains_key(h2) implies values_map(s).remove(
        h,
    ).contains_key(h2) && values_map(s2)[h2] == values_map(s).remove(h)[h2] by {
        let a = choose|a: int| 0 <= a < s2.len() && (#[trigger] s2[a]).0 == h2;
        let a0 = if a < i {
            a
        } else {
            a + 1
        };
        assert(s2[a] == s[a0]);
        lemma_values_map_at(s, a0);
        if a0 < i {
            assert(s[a0].0 != s[i].0);
        } else {
            assert(s[i].0 != s[a0].0);
        }
        lemma_values_map_at(s2, a);
    }
    assert forall|h2: u64| #[trigger] values_map(s).remove(h).contains_key(h2) implies values_map(
        s2,
    ).contains_key(h2) by {
        let a = choose|a: int| 0 <= a < s.len() && (#[trigger] s[a]).0 == h2;
        if a < i {
            assert(s2[a] == s[a]);
        } else {
            assert(a != i);
            assert(s2[a - 1] == s[a]);
        }
    }
}

proof fn lemma_values_map_push(s: Seq<(u64, Name)>, p: (u64, Name))
    requires
        handles_unique(s),
        forall|i: int| 0 <= i < s.len() ==> (#[trigger] s[i]).0 != p.0,
    ensures
        handles_unique(s.push(p)),
        values_map(s.push(p)) =~= values_map(s).insert(p.0, p.1@),
{
    let s2 = s.push(p);
    assert forall|a: int, b: int| 0 <= a < b < s2.len() implies (#[trigger] s2[a]).0 != (
    #[trigger] s2[b]).0 by {
        if b < s.len() {
            assert(s2[a] == s[a]);
            assert(s2[b] == s[b]);
        } else {
            assert(s2[a] == s[a]);
            assert(s2[b] == p);
        }
    }
    assert forall|h2: u64| #[trigger] values_map(s2).contains_key(h2) implies values_map(s).insert(
        p.0,
        p.1@,
    ).contains_key(h2) && values_map(s2)[h2] == values_map(s).insert(p.0, p.1@)[h2] by {
        let a = choose|a: int| 0 <= a < s2.len() && (#[trigger] s2[a]).0 == h2;
        lemma_values_map_at(s2, a);
        if a < s.len() {
            assert(s2[a] == s[a]);
            lemma_values_map_at(s, a);
            assert(s[a].0 != p.0);
        } else {
            assert(s2[a] == p);
        }
    }
    assert forall|h2: u64| #[trigger] values_map(s).insert(p.0, p.1@).contains_key(
        h2,
    ) implies values_map(s2).contains_key(h2) by {
        if h2 == p.0 {
            assert(s2[s.len() as int] == p);
        } else {
            let a = choose|a: int| 0 <= a < s.len() && (#[trigger] s[a]).0 == h2;
            assert(s2[a] == s[a]);
        }
    }
}

/// A monotonically advancing read position into a store's change log, owned
/// exclusively by one consumer and never shared or rewound.
#[derive(Debug)]
pub struct ChangeCursor {
    pub(crate) pos: usize,
}

impl ChangeCursor {
    /// How many log entries this cursor has consumed.
    pub closed spec fn position(&self) -> int {
        self.pos as int
    }

    pub(crate) proof fn lemma_cursor_position(&self)
        ensures
            self.position() == self.pos as int,
    {
    }
}

/// An attribute store: a sparse map from object handle to its current name,
/// instrumented to append a change event on every insert, removal, or
/// in-place overwrite, so that consumers can re-derive state from the log.
#[derive(Debug)]
pub struct NameStore {
    values: Vec<(u64, Name)>,
    log: Vec<ChangeEvent>,
}

impl NameStore {
    /// The stored entries carry pairwise-distinct handles.
    pub closed spec fn wf(&self) -> bool {
        handles_unique(self.values@)
    }

    /// The store's current contents: each live handle to its name's text.
    pub closed spec fn current(&self) -> Map<u64, Seq<char>> {
        values_map(self.values@)
    }

    /// Every change event appended so far, in append order.
    pub closed spec fn log(&self) -> Seq<ChangeEvent> {
        self.log@
    }

    /// An empty store with an empty change log.
    pub fn new() -> (r: NameStore)
        ensures
            r.wf(),
            r.current() == Map::<u64, Seq<char>>::empty(),
            r.log() == Seq::<ChangeEvent>::empty(),
    {
        let r = NameStore { values: Vec::new(), log: Vec::new() };
        proof {
            assert(r.current() =~= Map::<u64, Seq<char>>::empty());
        }
        r
    }

    /// Set a handle's name. A fresh handle logs an insertion; overwriting a
    /// live handle logs a modification, whether or not the text changed.
    pub fn insert(&mut self, handle: u64, name: Name)
        requires
            old(self).wf(),
        ensures
            final(self).wf(),
            final(self).current() == old(self).current().insert(handle, name@),
            final(self).log() == old(self).log().push(
                if old(self).current().contains_key(handle) {
                    ChangeEvent::Modified(handle)
                } else {
                    ChangeEvent::Inserted(handle)
                },
            ),
    {
        let n = self.values.len();
        let mut i: usize = 0;
        while i < n
            invariant
                n == self.values@.len(),
                0 <= i <= n,
                self.wf(),
                self == old(self),
                forall|j: int| 0 <= j < i ==> (#[trigger] self.values@[j]).0 != handle,
            decreases n - i,
        {
            if self.values[i].0 == handle {
                proof {
                    lemma_values_map_at(self.values@, i as int);
                    lemma_values_map_remove(self.values@, i as int);
                }
                self.values.remove(i);
                proof {
                    assert forall|j: int| 0 <= j < self.values@.len() implies (
                    #[trigger] self.values@[j]).0 != handle by {
                        if self.values@[j].0 == handle {
                            assert(self.current().contains_key(handle));
                        }
                    }
                    lemma_values_map_push(self.values@, (handle, name));
                    assert(old(self).current().remove(handle).insert(handle, name@) =~= old(
                        self,
                    ).current().insert(handle, name@));
                }
                self.values.push((handle, name));
                self.log.push(ChangeEvent::Modified(handle));
                return ;
            }
            i += 1;
        }
        proof {
            assert(!self.current().contains_key(handle));
            lemma_values_map_push(self.values@, (handle, name));
        }
        self.values.push((handle, name));
        self.log.push(ChangeEvent::Inserted(handle));
    }

    /// Remove a handle's name outright: a true deletion. Only a live handle
    /// logs a removal event.
    pub fn remove(&mut self, handle: u64)
        requires
            old(self).wf(),
        ensures
            final(self).wf(),
            final(self).current() == old(self).current().remove(handle),
            final(self).log() == if old(self).current().contains_key(handle) {
                old(self).log().push(ChangeEvent::Removed(handle))
            } else {
                old(self).log()
            },
    {
        let n = self.values.len();
        let mut i: usize = 0;
        while i < n
            invariant
                n == self.values@.len(),
                0 <= i <= n,
                self.wf(),
                self == old(self),
                forall|j: int| 0 <= j < i ==> (#[trigger] self.values@[j]).0 != handle,
            decreases n - i,
        {
            if self.values[i].0 == handle {
                proof {
                    lemma_values_map_at(self.values@, i as int);
                    lemma_values_map_remove(self.values@, i as int);
                }
                self.values.remove(i);
                self.log.push(ChangeEvent::Removed(handle));
                return ;
            }
            i += 1;
        }
        proof {
            assert(!self.current().contains_key(handle));
            assert(self.current() =~= self.current().remove(handle));
        }
    }

    /// A handle's current name, if the handle is live: the point lookup the
    /// maintainer's passes perform.
    pub fn current_value(&self, handle: u64) -> (r: Option<Name>)
        requires
            self.wf(),
        ensures
            match r {
                Some(name) => self.current().contains_key(handle) && name@ == self.current()[handle],
                None => !self.current().contains_key(handle),
            },
    {
        let n = self.values.len();
        let mut i: usize = 0;
        while i < n
            invariant
                n == self.values@.len(),
                0 <= i <= n,
                self.wf(),
                forall|j: int| 0 <= j < i ==> (#[trigger] self.values@[j]).0 != handle,
            decreases n - i,
        {
            if self.values[i].0 == handle {
                proof {
                    lemma_values_map_at(self.values@, i as int);
                }
                return Some(self.values[i].1.clone());
            }
            i += 1;
        }
        None
    }

    /// How many events the change log holds.
    pub fn log_len(&self) -> (n: usize)
        ensures
            n == self.log().len(),
    {
        self.log.len()
    }

    /// The event at a given log position.
    pub fn log_at(&self, i: usize) -> (e: ChangeEvent)
        requires
            i < self.log().len(),
        ensures
            e == self.log()[i as int],
    {
        self.log[i]
    }

    /// Register a durable, private read cursor against the change log: it
    /// will see exactly the events appended from this moment on.
    pub fn register_reader(&self) -> (c: ChangeCursor)
        ensures
            c.position() == self.log().len(),
    {
        ChangeCursor { pos: self.log.len() }
    }
}

} // verus!
