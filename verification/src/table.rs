use crate::event::Entity;
use crate::name::Name;
use vstd::prelude::*;

verus! {

/// No two entries carry the same text.
pub open spec fn keys_unique(s: Seq<(Name, Entity)>) -> bool {
    forall|i: int, j: int|
        0 <= i < j < s.len() ==> (#[trigger] s[i]).0@ != (#[trigger] s[j]).0@
}

/// The map an entry list stands for: each text to the handle stored with it.
pub open spec fn entries_map(s: Seq<(Name, Entity)>) -> Map<Seq<char>, Entity> {
    Map::new(
        |k: Seq<char>| exists|i: int| 0 <= i < s.len() && (#[trigger] s[i]).0@ == k,
        |k: Seq<char>|
            s[choose|i: int| 0 <= i < s.len() && (#[trigger] s[i]).0@ == k].1,
    )
}

proof fn lemma_entries_map_at(s: Seq<(Name, Entity)>, i: int)
    requires
        keys_unique(s),
        0 <= i < s.len(),
    ensures
        entries_map(s).contains_key(s[i].0@),
        entries_map(s)[s[i].0@] == s[i].1,
{
    let k = s[i].0@;
    assert(entries_map(s).contains_key(k));
    let j = choose|j: int| 0 <= j < s.len() && (#[trigger] s[j]).0@ == k;
    if j < i {
        assert(s[j].0@ != s[i].0@);
    } else if i < j {
        assert(s[i].0@ != s[j].0@);
    }
    assert(j == i);
}

proof fn lemma_entries_map_remove(s: Seq<(Name, Entity)>, i: int)
    requires
        keys_unique(s),
        0 <= i < s.len(),
    ensures
        keys_unique(s.remove(i)),
        entries_map(s.remove(i)) =~= entries_map(s).remove(s[i].0@),
{
    let s2 = s.remove(i);
    let k = s[i].0@;
    assert forall|a: int, b: int| 0 <= a < b < s2.len() implies (#[trigger] s2[a]).0@ != (
    #[trigger] s2[b]).0@ by {
        let a0 = if a < i {
            a
        } else {
            a + 1
        };
        let b0 = if b < i {
            b
        } else {
            b + 1
        };
        assert(s2[a] == s[a0]);
        assert(s2[b] == s[b0]);
        assert(s[a0].0@ != s[b0].0@);
    }
    assert forall|k2: Seq<char>| #[trigger] entries_map(s2).contains_key(k2) implies entries_map(
        s,
    ).remove(k).contains_key(k2) && entries_map(s2)[k2] == entries_map(s).remove(k)[k2] by {
        let a = choose|a: int| 0 <= a < s2.len() && (#[trigger] s2[a]).0@ == k2;
        let a0 = if a < i {
            a
        } else {
            a + 1
        };
        assert(s2[a] == s[a0]);
        lemma_entries_map_at(s, a0);
        if a0 < i {
            assert(s[a0].0@ != s[i].0@);
        } else {
            assert(s[i].0@ != s[a0].0@);
        }
        lemma_entries_map_at(s2, a);
    }
    assert forall|k2: Seq<char>| #[trigger] entries_map(s).remove(k).contains_key(
        k2,
    ) implies entries_map(s2).contains_key(k2) by {
        let a = choose|a: int| 0 <= a < s.len() && (#[trigger] s[a]).0@ == k2;
        if a < i {
            assert(s2[a] == s[a]);
        } else {
            assert(a != i);
            assert(s2[a - 1] == s[a]);
        }
    }
}

proof fn lemma_entries_map_push(s: Seq<(Name, Entity)>, p: (Name, Entity))
    requires
        keys_unique(s),
        forall|i: int| 0 <= i < s.len() ==> (#[trigger] s[i]).0@ != p.0@,
    ensures
        keys_unique(s.push(p)),
        entries_map(s.push(p)) =~= entries_map(s).insert(p.0@, p.1),
{
    let s2 = s.push(p);
    assert forall|a: int, b: int| 0 <= a < b < s2.len() implies (#[trigger] s2[a]).0@ != (
    #[trigger] s2[b]).0@ by {
        if b < s.len() {
            assert(s2[a] == s[a]);
            assert(s2[b] == s[b]);
        } else {
            assert(s2[a] == s[a]);
            assert(s2[b] == p);
        }
    }
    assert forall|k2: Seq<char>| #[trigger] entries_map(s2).contains_key(k2) implies entries_map(
        s,
    ).insert(p.0@, p.1).contains_key(k2) && entries_map(s2)[k2] == entries_map(s).insert(
        p.0@,
        p.1,
    )[k2] by {
        let a = choose|a: int| 0 <= a < s2.len() && (#[trigger] s2[a]).0@ == k2;
        lemma_entries_map_at(s2, a);
        if a < s.len() {
            assert(s2[a] == s[a]);
            lemma_entries_map_at(s, a);
            assert(s[a].0@ != p.0@);
        } else {
            assert(s2[a] == p);
        }
    }
    assert forall|k2: Seq<char>| #[trigger] entries_map(s).insert(p.0@, p.1).contains_key(
        k2,
    ) implies entries_map(s2).contains_key(k2) by {
        if k2 == p.0@ {
            assert(s2[s.len() as int] == p);
        } else {
            let a = choose|a: int| 0 <= a < s.len() && (#[trigger] s[a]).0@ == k2;
            assert(s2[a] == s[a]);
        }
    }
}

/// A reverse index from display text back to the owning handle: at most one
/// handle per text at any instant, with no ordering among entries.
///
/// No mutating operation is exposed outside the crate: all writes route
/// through the maintainer, so the index cannot drift away from the change log
/// through uncoordinated writes.
#[derive(Debug)]
pub struct NameTable {
    entries: Vec<(Name, Entity)>,
}

impl View for NameTable {
    type V = Map<Seq<char>, Entity>;

    closed spec fn view(&self) -> Map<Seq<char>, Entity> {
        entries_map(self.entries@)
    }
}

impl Default for NameTable {
    /// An empty index.
    fn default() -> (r: NameTable)
        ensures
            r.wf(),
            r@ == Map::<Seq<char>, Entity>::empty(),
    {
        let r = NameTable { entries: Vec::new() };
        proof {
            assert(r@ =~= Map::<Seq<char>, Entity>::empty());
        }
        r
    }
}

impl NameTable {
    /// The stored entries carry pairwise-distinct texts.
    pub closed spec fn wf(&self) -> bool {
        keys_unique(self.entries@)
    }

    /// Look a text up: the handle mapped to it, if any. A miss is a normal
    /// "no match", not an error.
    pub fn get(&self, name: &str) -> (r: Option<Entity>)
        requires
            self.wf(),
        ensures
            match r {
                Some(e) => self@.contains_key(name@) && self@[name@] == e,
                None => !self@.contains_key(name@),
            },
    {
        let owned: String = name.to_owned();
        let n = self.entries.len();
        let mut i: usize = 0;
        while i < n
            invariant
                n == self.entries@.len(),
                0 <= i <= n,
                self.wf(),
                owned@ == name@,
                forall|j: int| 0 <= j < i ==> (#[trigger] self.entries@[j]).0@ != name@,
            decreases n - i,
        {
            if self.entries[i].0.text_is(&owned) {
                proof {
                    lemma_entries_map_at(self.entries@, i as int);
                }
                return Some(self.entries[i].1);
            }
            i += 1;
        }
        None
    }

    /// A snapshot of the current contents, as (text, handle) pairs covering
    /// exactly the index's entries, in no guaranteed order.
    pub fn iter(&self) -> (r: Vec<(Name, Entity)>)
        requires
            self.wf(),
        ensures
            forall|i: int|
                0 <= i < r@.len() ==> self@.contains_key((#[trigger] r@[i]).0@) && self@[r@[i].0@]
                    == r@[i].1,
            forall|k: Seq<char>|
                #[trigger] self@.contains_key(k) ==> exists|i: int|
                    0 <= i < r@.len() && (#[trigger] r@[i]).0@ == k,
            forall|i: int, j: int|
                0 <= i < j < r@.len() ==> (#[trigger] r@[i]).0@ != (#[trigger] r@[j]).0@,
    {
        let n = self.entries.len();
        let mut r: Vec<(Name, Entity)> = Vec::new();
        let mut i: usize = 0;
        while i < n
            invariant
                n == self.entries@.len(),
                0 <= i <= n,
                self.wf(),
                r@.len() == i,
                forall|j: int|
                    0 <= j < i ==> (#[trigger] r@[j]).0@ == self.entries@[j].0@ && r@[j].1
                        == self.entries@[j].1,
            decreases n - i,
        {
            let pair = (self.entries[i].0.clone(), self.entries[i].1);
            r.push(pair);
            i += 1;
        }
        proof {
            assert forall|i: int|
                0 <= i < r@.len() implies self@.contains_key((#[trigger] r@[i]).0@) && self@[r@[i].0@]
                == r@[i].1 by {
                lemma_entries_map_at(self.entries@, i);
            }
            assert forall|k: Seq<char>| #[trigger] self@.contains_key(k) implies exists|i: int|
                0 <= i < r@.len() && (#[trigger] r@[i]).0@ == k by {
                let a = choose|a: int|
                    0 <= a < self.entries@.len() && (#[trigger] self.entries@[a]).0@ == k;
                assert(r@[a].0@ == k);
            }
        }
        r
    }

    /// Erase whatever entry is keyed by the given name, if one is.
    pub(crate) fn remove_text(&mut self, name: &Name)
        requires
            old(self).wf(),
        ensures
            final(self).wf(),
            final(self)@ == old(self)@.remove(name@),
    {
        let n = self.entries.len();
        let mut i: usize = 0;
        while i < n
            invariant
                n == self.entries@.len(),
                0 <= i <= n,
                self.wf(),
                self == old(self),
                forall|j: int| 0 <= j < i ==> (#[trigger] self.entries@[j]).0@ != name@,
            decreases n - i,
        {
            if self.entries[i].0 == *name {
                proof {
                    lemma_entries_map_remove(self.entries@, i as int);
                }
                self.entries.remove(i);
                return ;
            }
            i += 1;
        }
        proof {
            assert(!self@.contains_key(name@));
            assert(self@ =~= self@.remove(name@));
        }
    }

    /// Write `name -> ent`, inserting or overwriting, and report the handle
    /// the name was mapped to before, if any.
    pub(crate) fn insert_pair(&mut self, name: Name, ent: Entity) -> (prev: Option<Entity>)
        requires
            old(self).wf(),
        ensures
            final(self).wf(),
            final(self)@ == old(self)@.insert(name@, ent),
            prev == if old(self)@.contains_key(name@) {
                Some(old(self)@[name@])
            } else {
                None::<Entity>
            },
    {
        let n = self.entries.len();
        let mut i: usize = 0;
        while i < n
            invariant
                n == self.entries@.len(),
                0 <= i <= n,
                self.wf(),
                self == old(self),
                forall|j: int| 0 <= j < i ==> (#[trigger] self.entries@[j]).0@ != name@,
            decreases n - i,
        {
            if self.entries[i].0 == name {
                let p = self.entries[i].1;
                proof {
                    lemma_entries_map_at(self.entries@, i as int);
                    lemma_entries_map_remove(self.entries@, i as int);
                }
                self.entries.remove(i);
                proof {
                    lemma_entries_map_push(self.entries@, (name, ent));
                    assert(old(self)@.remove(name@).insert(name@, ent) =~= old(self)@.insert(
                        name@,
                        ent,
                    ));
                }
                self.entries.push((name, ent));
                return Some(p);
            }
            i += 1;
        }
        proof {
            assert(!self@.contains_key(name@));
            lemma_entries_map_push(self.entries@, (name, ent));
        }
        self.entries.push((name, ent));
        None
    }
}

} // verus!
