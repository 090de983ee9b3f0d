//! The cache store: a mapping from fingerprint to rendered payload.
//!
//! The store is an association list with pairwise-distinct keys, viewed in
//! contracts as a `Map<u64, Seq<u8>>`. It is loaded from a persisted file at
//! startup (see the codec module), consulted and grown during a run, and
//! written back at the end. The run inserts with `put_if_absent`, so an
//! entry, once written, is never changed by a later render of the same
//! fingerprint within the run.

use vstd::prelude::*;

verus! {

/// The mathematical entries that a vector of (key, payload) pairs stands for.
pub open spec fn entry_views(s: Seq<(u64, Vec<u8>)>) -> Seq<(u64, Seq<u8>)> {
    s.map_values(|e: (u64, Vec<u8>)| (e.0, e.1@))
}

/// No key occurs twice.
pub open spec fn distinct_keys(s: Seq<(u64, Seq<u8>)>) -> bool {
    forall|i: int, j: int| 0 <= i < j < s.len() ==> (#[trigger] s[i]).0 != (#[trigger] s[j]).0
}

/// The mapping that a sequence of entries stands for; a later entry for the
/// same key wins.
pub open spec fn entries_map(s: Seq<(u64, Seq<u8>)>) -> Map<u64, Seq<u8>>
    decreases s.len(),
{
    if s.len() == 0 {
        Map::empty()
    } else {
        entries_map(s.drop_last()).insert(s.last().0, s.last().1)
    }
}

proof fn lemma_entries_map_domain(s: Seq<(u64, Seq<u8>)>, k: u64)
    ensures
        entries_map(s).contains_key(k) <==> exists|i: int|
            0 <= i < s.len() && (#[trigger] s[i]).0 == k,
    decreases s.len(),
{
    if s.len() > 0 {
        lemma_entries_map_domain(s.drop_last(), k);
        if s.last().0 == k {
            assert(s[s.len() - 1].0 == k);
        } else {
            if exists|i: int| 0 <= i < s.len() && (#[trigger] s[i]).0 == k {
                let i = choose|i: int| 0 <= i < s.len() && (#[trigger] s[i]).0 == k;
                assert(s.drop_last()[i] == s[i]);
            }
            if entries_map(s.drop_last()).contains_key(k) {
                let i = choose|i: int|
                    0 <= i < s.drop_last().len() && (#[trigger] s.drop_last()[i]).0 == k;
                assert(s[i].0 == k);
            }
        }
    }
}

proof fn lemma_distinct_drop_last(s: Seq<(u64, Seq<u8>)>)
    requires
        distinct_keys(s),
        s.len() > 0,
    ensures
        distinct_keys(s.drop_last()),
{
    assert forall|x: int, y: int| 0 <= x < y < s.drop_last().len() implies (
    #[trigger] s.drop_last()[x]).0 != (#[trigger] s.drop_last()[y]).0 by {
        assert(s.drop_last()[x] == s[x]);
        assert(s.drop_last()[y] == s[y]);
    }
}

proof fn lemma_entries_map_at(s: Seq<(u64, Seq<u8>)>, i: int)
    requires
        distinct_keys(s),
        0 <= i < s.len(),
    ensures
        entries_map(s).contains_key(s[i].0),
        entries_map(s)[s[i].0] == s[i].1,
    decreases s.len(),
{
    if i < s.len() - 1 {
        lemma_distinct_drop_last(s);
        lemma_entries_map_at(s.drop_last(), i);
        assert(s.drop_last()[i] == s[i]);
        assert(s.last().0 != s[i].0);
    }
}

proof fn lemma_entries_map_remove(s: Seq<(u64, Seq<u8>)>, i: int)
    requires
        distinct_keys(s),
        0 <= i < s.len(),
    ensures
        entries_map(s.remove(i)) =~= entries_map(s).remove(s[i].0),
    decreases s.len(),
{
    lemma_distinct_drop_last(s);
    if i == s.len() - 1 {
        assert(s.remove(i) =~= s.drop_last());
        lemma_entries_map_domain(s.drop_last(), s[i].0);
        assert forall|x: int| 0 <= x < s.drop_last().len() implies (#[trigger] s.drop_last()[x]).0
            != s[i].0 by {
            assert(s.drop_last()[x] == s[x]);
        }
        assert(entries_map(s.drop_last()).insert(s.last().0, s.last().1).remove(s[i].0)
            =~= entries_map(s.drop_last()));
    } else {
        lemma_entries_map_remove(s.drop_last(), i);
        assert(s.drop_last()[i] == s[i]);
        assert(s.remove(i).drop_last() =~= s.drop_last().remove(i));
        assert(s.remove(i).last() == s.last());
        assert(s.remove(i).len() > 0);
        assert(entries_map(s.remove(i)) == entries_map(s.drop_last().remove(i)).insert(
            s.last().0,
            s.last().1,
        ));
        assert(s.last().0 != s[i].0);
        assert(entries_map(s.drop_last()).remove(s[i].0).insert(s.last().0, s.last().1)
            =~= entries_map(s.drop_last()).insert(s.last().0, s.last().1).remove(s[i].0));
    }
}

proof fn lemma_entries_map_push(vs: Seq<(u64, Seq<u8>)>, k: u64, v: Seq<u8>)
    ensures
        entries_map(vs.push((k, v))) == entries_map(vs).insert(k, v),
{
    assert(vs.push((k, v)).drop_last() =~= vs);
}

/// The persistent fingerprint-to-payload cache of one run.
pub struct CacheStore {
    pub entries: Vec<(u64, Vec<u8>)>,
}

impl CacheStore {
    /// Well-formed: no fingerprint occurs twice.
    pub open spec fn wf(&self) -> bool {
        distinct_keys(entry_views(self.entries@))
    }

    /// The mapping from fingerprint to rendered payload that the store holds.
    pub open spec fn as_map(&self) -> Map<u64, Seq<u8>> {
        entries_map(entry_views(self.entries@))
    }

    /// An empty store: what a run starts from when no usable cache file is
    /// found.
    pub fn new() -> (s: CacheStore)
        ensures
            s.wf(),
            s.as_map() == Map::<u64, Seq<u8>>::empty(),
            s.entries@.len() == 0,
    {
        CacheStore { entries: Vec::new() }
    }

    fn find(&self, key: u64) -> (r: Option<usize>)
        ensures
            match r {
                Some(i) => 0 <= i < self.entries@.len() && entry_views(self.entries@)[i as int].0
                    == key,
                None => forall|i: int|
                    0 <= i < self.entries@.len() ==> (#[trigger] entry_views(self.entries@)[i]).0
                        != key,
            },
    {
        let mut i: usize = 0;
        while i < self.entries.len()
            invariant
                i <= self.entries@.len(),
                forall|x: int| 0 <= x < i ==> (#[trigger] entry_views(self.entries@)[x]).0 != key,
            decreases self.entries@.len() - i,
        {
            if self.entries[i].0 == key {
                return Some(i);
            }
            i = i + 1;
        }
        None
    }

    /// Pure lookup of a fingerprint; never triggers rendering.
    pub fn get(&self, key: u64) -> (r: Option<&Vec<u8>>)
        requires
            self.wf(),
        ensures
            r is Some <==> self.as_map().contains_key(key),
            r is Some ==> r.unwrap()@ == self.as_map()[key],
    {
        proof {
            lemma_entries_map_domain(entry_views(self.entries@), key);
        }
        match self.find(key) {
            Some(i) => {
                proof {
                    lemma_entries_map_at(entry_views(self.entries@), i as int);
                }
                Some(&self.entries[i].1)
            },
            None => None,
        }
    }

    /// Inserts the payload under the key unless the key is already present.
    pub fn put_if_absent(&mut self, key: u64, payload: Vec<u8>)
        requires
            old(self).wf(),
        ensures
            final (self).wf(),
            final (self).as_map() == if old(self).as_map().contains_key(key) {
                old(self).as_map()
            } else {
                old(self).as_map().insert(key, payload@)
            },
    {
        proof {
            lemma_entries_map_domain(entry_views(self.entries@), key);
        }
        let ghost pv = payload@;
        match self.find(key) {
            Some(_) => {},
            None => {
                let ghost s0 = self.entries@;
                self.entries.push((key, payload));
                proof {
                    assert(entry_views(self.entries@) =~= entry_views(s0).push((key, pv)));
                    lemma_entries_map_push(entry_views(s0), key, pv);
                    assert forall|x: int, y: int|
                        0 <= x < y < entry_views(self.entries@).len() implies (
                    #[trigger] entry_views(self.entries@)[x]).0 != (#[trigger] entry_views(
                        self.entries@,
                    )[y]).0 by {
                        if y < entry_views(s0).len() {
                            assert(entry_views(self.entries@)[x] == entry_views(s0)[x]);
                            assert(entry_views(self.entries@)[y] == entry_views(s0)[y]);
                        } else {
                            assert(entry_views(self.entries@)[x] == entry_views(s0)[x]);
                        }
                    }
                }
            },
        }
    }

    /// Inserts or overwrites the payload under the key.
    pub fn put(&mut self, key: u64, payload: Vec<u8>)
        requires
            old(self).wf(),
        ensures
            final (self).wf(),
            final (self).as_map() == old(self).as_map().insert(key, payload@),
    {
        proof {
            lemma_entries_map_domain(entry_views(self.entries@), key);
        }
        let ghost pv = payload@;
        match self.find(key) {
            Some(i) => {
                let ghost s0 = self.entries@;
                self.entries.remove(i);
                proof {
                    assert(entry_views(self.entries@) =~= entry_views(s0).remove(i as int));
                    lemma_entries_map_remove(entry_views(s0), i as int);
                    assert forall|x: int, y: int|
                        0 <= x < y < entry_views(self.entries@).len() implies (
                    #[trigger] entry_views(self.entries@)[x]).0 != (#[trigger] entry_views(
                        self.entries@,
                    )[y]).0 by {
                        let vs0 = entry_views(s0);
                        if x < i {
                            assert(vs0.remove(i as int)[x] == vs0[x]);
                        } else {
                            assert(vs0.remove(i as int)[x] == vs0[x + 1]);
                        }
                        if y < i {
                            assert(vs0.remove(i as int)[y] == vs0[y]);
                        } else {
                            assert(vs0.remove(i as int)[y] == vs0[y + 1]);
                        }
                    }
                    lemma_entries_map_domain(entry_views(self.entries@), key);
                }
                let ghost s1 = self.entries@;
                self.entries.push((key, payload));
                proof {
                    assert(entry_views(self.entries@) =~= entry_views(s1).push((key, pv)));
                    lemma_entries_map_push(entry_views(s1), key, pv);
                    assert(entries_map(entry_views(s1)).insert(key, pv) =~= entries_map(
                        entry_views(s0),
                    ).insert(key, pv));
                    assert forall|x: int, y: int|
                        0 <= x < y < entry_views(self.entries@).len() implies (
                    #[trigger] entry_views(self.entries@)[x]).0 != (#[trigger] entry_views(
                        self.entries@,
                    )[y]).0 by {
                        if y < entry_views(s1).len() {
                            assert(entry_views(self.entries@)[x] == entry_views(s1)[x]);
                            assert(entry_views(self.entries@)[y] == entry_views(s1)[y]);
                        } else {
                            assert(entry_views(self.entries@)[x] == entry_views(s1)[x]);
                        }
                    }
                }
            },
            None => {
                let ghost s0 = self.entries@;
                self.entries.push((key, payload));
                proof {
                    assert(entry_views(self.entries@) =~= entry_views(s0).push((key, pv)));
                    lemma_entries_map_push(entry_views(s0), key, pv);
                    assert forall|x: int, y: int|
                        0 <= x < y < entry_views(self.entries@).len() implies (
                    #[trigger] entry_views(self.entries@)[x]).0 != (#[trigger] entry_views(
                        self.entries@,
                    )[y]).0 by {
                        if y < entry_views(s0).len() {
                            assert(entry_views(self.entries@)[x] == entry_views(s0)[x]);
                            assert(entry_views(self.entries@)[y] == entry_views(s0)[y]);
                        } else {
                            assert(entry_views(self.entries@)[x] == entry_views(s0)[x]);
                        }
                    }
                }
            },
        }
    }

    /// How many entries the store holds.
    pub fn len(&self) -> (n: usize)
        ensures
            n == self.entries@.len(),
    {
        self.entries.len()
    }
}

} // verus!
