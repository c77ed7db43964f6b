//! An association table keyed by a 64-bit identity: the shape of the server's
//! authoritative lobby and of the client's identity-to-entity map.
//!
//! Keys are unique; insertion order is kept, which gives a deterministic
//! broadcast order (the table is what an engine-managed map is replaced with).

use vstd::prelude::*;

verus! {

/// `s` holds an entry keyed by `id`.
pub open spec fn has_id<V>(s: Seq<(u64, V)>, id: u64) -> bool {
    exists|i: int| 0 <= i < s.len() && (#[trigger] s[i]).0 == id
}

/// Index of the entry keyed by `id` (meaningful only when `has_id`).
pub open spec fn idx_of<V>(s: Seq<(u64, V)>, id: u64) -> int {
    choose|i: int| 0 <= i < s.len() && (#[trigger] s[i]).0 == id
}

/// Value stored under `id` (meaningful only when `has_id`).
pub open spec fn val_of<V>(s: Seq<(u64, V)>, id: u64) -> V {
    s[idx_of(s, id)].1
}

/// All keys distinct.
pub open spec fn distinct_ids<V>(s: Seq<(u64, V)>) -> bool {
    forall|i: int, j: int|
        0 <= i < j < s.len() ==> (#[trigger] s[i]).0 != (#[trigger] s[j]).0
}

/// The set of keys of `s`.
pub open spec fn id_set<V>(s: Seq<(u64, V)>) -> Set<u64> {
    Set::new(|id: u64| has_id(s, id))
}

/// With distinct keys, the entry at position `i` is the one `idx_of` finds
/// for its key.
pub proof fn lemma_idx_of_unique<V>(s: Seq<(u64, V)>, i: int)
    requires
        distinct_ids(s),
        0 <= i < s.len(),
    ensures
        idx_of(s, s[i].0) == i,
        has_id(s, s[i].0),
        val_of(s, s[i].0) == s[i].1,
{
    let id = s[i].0;
    assert(has_id(s, id));
    let j = idx_of(s, id);
    assert(0 <= j < s.len() && s[j].0 == id);
    if i < j {
        assert(s[i].0 != s[j].0);
    } else if j < i {
        assert(s[j].0 != s[i].0);
    }
}

/// Extending a prefix by one entry extends the keys it holds by that entry's
/// key.
pub proof fn lemma_take_has_id<V>(s: Seq<(u64, V)>, i: int)
    requires
        0 <= i < s.len(),
    ensures
        forall|k: u64|
            #[trigger] has_id(s.take(i + 1), k) == (has_id(s.take(i), k) || k == s[i].0),
{
    assert forall|k: u64|
        #[trigger] has_id(s.take(i + 1), k) == (has_id(s.take(i), k) || k == s[i].0) by {
        if has_id(s.take(i + 1), k) {
            let w = idx_of(s.take(i + 1), k);
            if w < i {
                assert(s.take(i)[w].0 == k);
            } else {
                assert(s.take(i + 1)[w] == s[i]);
            }
        }
        if has_id(s.take(i), k) {
            let w = idx_of(s.take(i), k);
            assert(s.take(i + 1)[w].0 == k);
        }
        if k == s[i].0 {
            assert(s.take(i + 1)[i].0 == k);
        }
    }
}

/// An association table with unique `u64` keys, viewed as its entry sequence.
pub struct IdTable<V> {
    entries: Vec<(u64, V)>,
}

impl<V> View for IdTable<V> {
    type V = Seq<(u64, V)>;

    closed spec fn view(&self) -> Seq<(u64, V)> {
        self.entries@
    }
}

impl<V> IdTable<V> {
    /// Keys unique.
    pub open spec fn wf(&self) -> bool {
        distinct_ids(self@)
    }

    /// An empty table.
    pub fn new() -> (r: IdTable<V>)
        ensures
            r@ == Seq::<(u64, V)>::empty(),
            r.wf(),
    {
        IdTable { entries: Vec::new() }
    }

    /// Number of entries.
    pub fn len(&self) -> (n: usize)
        ensures
            n == self@.len(),
    {
        self.entries.len()
    }

    /// The entry at position `i`.
    pub fn entry_at(&self, i: usize) -> (r: &(u64, V))
        requires
            i < self@.len(),
        ensures
            *r == self@[i as int],
    {
        &self.entries[i]
    }

    /// Position of the entry keyed by `id`, if any.
    fn find(&self, id: u64) -> (r: Option<usize>)
        ensures
            match r {
                Some(i) => i < self@.len() && self@[i as int].0 == id,
                None => !has_id(self@, id),
            },
    {
        let n = self.entries.len();
        let mut i: usize = 0;
        while i < n
            invariant
                i <= n,
                n == self@.len(),
                forall|j: int| 0 <= j < i ==> (#[trigger] self@[j]).0 != id,
            decreases n - i,
        {
            if self.entries[i].0 == id {
                return Some(i);
            }
            i = i + 1;
        }
        None
    }

    /// Whether the table holds an entry for `id`.
    pub fn contains_id(&self, id: u64) -> (r: bool)
        ensures
            r == has_id(self@, id),
    {
        match self.find(id) {
            Some(i) => {
                proof {
                    assert(has_id(self@, id));
                }
                true
            },
            None => false,
        }
    }

    /// The value stored under `id`, if any.
    pub fn get(&self, id: u64) -> (r: Option<&V>)
        requires
            self.wf(),
        ensures
            match r {
                Some(v) => has_id(self@, id) && *v == val_of(self@, id),
                None => !has_id(self@, id),
            },
    {
        match self.find(id) {
            Some(i) => {
                proof {
                    lemma_idx_of_unique(self@, i as int);
                }
                Some(&self.entries[i].1)
            },
            None => None,
        }
    }

    /// Store `v` under `id`: overwrite the existing entry in place, or append
    /// a new one. Every other entry is untouched.
    pub fn insert(&mut self, id: u64, v: V)
        requires
            old(self).wf(),
        ensures
            final(self).wf(),
            has_id(final(self)@, id),
            val_of(final(self)@, id) == v,
            forall|k: u64|
                k != id ==> #[trigger] has_id(final(self)@, k) == has_id(old(self)@, k),
            forall|k: u64|
                k != id && has_id(old(self)@, k) ==> #[trigger] val_of(final(self)@, k)
                    == val_of(old(self)@, k),
            has_id(old(self)@, id) ==> final(self)@.len() == old(self)@.len(),
            !has_id(old(self)@, id) ==> final(self)@ == old(self)@.push((id, v)),
            !has_id(old(self)@, id) ==> final(self)@.len() == old(self)@.len() + 1,
    {
        let ghost s0 = self@;
        match self.find(id) {
            Some(i) => {
                self.entries[i] = (id, v);
                proof {
                    let s1 = self@;
                    assert(s1 == s0.update(i as int, (id, v)));
                    assert forall|j: int| 0 <= j < s1.len() implies (#[trigger] s1[j]).0
                        == s0[j].0 by {}
                    assert(distinct_ids(s1));
                    lemma_idx_of_unique(s1, i as int);
                    assert forall|k: u64| k != id implies #[trigger] has_id(s1, k) == has_id(
                        s0,
                        k,
                    ) by {
                        if has_id(s0, k) {
                            let j = idx_of(s0, k);
                            assert(s1[j].0 == k);
                        }
                        if has_id(s1, k) {
                            let j = idx_of(s1, k);
                            assert(s0[j].0 == k);
                        }
                    }
                    assert forall|k: u64| k != id && has_id(s0, k) implies #[trigger] val_of(
                        s1,
                        k,
                    ) == val_of(s0, k) by {
                        let j = idx_of(s0, k);
                        assert(0 <= j < s0.len() && s0[j].0 == k);
                        assert(j != i);
                        assert(s1[j] == s0[j]);
                        lemma_idx_of_unique(s1, j);
                        lemma_idx_of_unique(s0, j);
                    }
                    assert(has_id(s0, id)) by {
                        assert(s0[i as int].0 == id);
                    }
                }
            },
            None => {
                self.entries.push((id, v));
                proof {
                    let s1 = self@;
                    assert(s1 == s0.push((id, v)));
                    let n = s0.len() as int;
                    assert(s1[n] == (id, v));
                    assert forall|i: int, j: int| 0 <= i < j < s1.len() implies (
                    #[trigger] s1[i]).0 != (#[trigger] s1[j]).0 by {
                        if j < n {
                            assert(s1[i] == s0[i] && s1[j] == s0[j]);
                        } else {
                            assert(s1[i] == s0[i]);
                            assert(s1[j].0 == id);
                            if s0[i].0 == id {
                                assert(has_id(s0, id));
                            }
                        }
                    }
                    lemma_idx_of_unique(s1, n);
                    assert forall|k: u64| k != id implies #[trigger] has_id(s1, k) == has_id(
                        s0,
                        k,
                    ) by {
                        if has_id(s0, k) {
                            let j = idx_of(s0, k);
                            assert(s1[j].0 == k);
                        }
                        if has_id(s1, k) {
                            let j = idx_of(s1, k);
                            assert(j < n);
                            assert(s0[j].0 == k);
                        }
                    }
                    assert forall|k: u64| k != id && has_id(s0, k) implies #[trigger] val_of(
                        s1,
                        k,
                    ) == val_of(s0, k) by {
                        let j = idx_of(s0, k);
                        assert(0 <= j < s0.len() && s0[j].0 == k);
                        assert(s1[j] == s0[j]);
                        lemma_idx_of_unique(s1, j);
                        lemma_idx_of_unique(s0, j);
                    }
                }
            },
        }
    }

    /// Overwrite the value at position `i`, keeping its key.
    pub fn update_at(&mut self, i: usize, v: V)
        requires
            old(self).wf(),
            i < old(self)@.len(),
        ensures
            final(self).wf(),
            final(self)@ == old(self)@.update(i as int, (old(self)@[i as int].0, v)),
    {
        let id = self.entries[i].0;
        self.entries[i] = (id, v);
        proof {
            let s0 = old(self)@;
            let s1 = self@;
            assert forall|j: int| 0 <= j < s1.len() implies (#[trigger] s1[j]).0
                == s0[j].0 by {}
        }
    }

    /// Remove the entry keyed by `id`, if present. Every other entry is
    /// untouched.
    pub fn remove(&mut self, id: u64)
        requires
            old(self).wf(),
        ensures
            final(self).wf(),
            !has_id(final(self)@, id),
            forall|k: u64|
                k != id ==> #[trigger] has_id(final(self)@, k) == has_id(old(self)@, k),
            forall|k: u64|
                k != id && has_id(old(self)@, k) ==> #[trigger] val_of(final(self)@, k)
                    == val_of(old(self)@, k),
            has_id(old(self)@, id) ==> final(self)@.len() == old(self)@.len() - 1,
            !has_id(old(self)@, id) ==> final(self)@ == old(self)@,
    {
        let ghost s0 = self@;
        match self.find(id) {
            Some(i) => {
                self.entries.remove(i);
                proof {
                    let s1 = self@;
                    let n = s0.len() as int;
                    let ii = i as int;
                    assert(s1 == s0.remove(ii));
                    assert(s1.len() == n - 1);
                    assert forall|j: int| 0 <= j < s1.len() implies #[trigger] s1[j] == (
                    if j < ii {
                        s0[j]
                    } else {
                        s0[j + 1]
                    }) by {}
                    assert(distinct_ids(s1)) by {
                        assert forall|a: int, b: int| 0 <= a < b < s1.len() implies (
                        #[trigger] s1[a]).0 != (#[trigger] s1[b]).0 by {
                            let a0 = if a < ii { a } else { a + 1 };
                            let b0 = if b < ii { b } else { b + 1 };
                            assert(s1[a] == s0[a0] && s1[b] == s0[b0]);
                            assert(0 <= a0 < b0 < n);
                        }
                    }
                    assert(!has_id(s1, id)) by {
                        if has_id(s1, id) {
                            let j = idx_of(s1, id);
                            let j0 = if j < ii { j } else { j + 1 };
                            assert(s0[j0].0 == id);
                            assert(s0[ii].0 == id);
                            assert(j0 != ii);
                            if j0 < ii {
                                assert(s0[j0].0 != s0[ii].0);
                            } else {
                                assert(s0[ii].0 != s0[j0].0);
                            }
                        }
                    }
                    assert forall|k: u64| k != id implies #[trigger] has_id(s1, k) == has_id(
                        s0,
                        k,
                    ) by {
                        if has_id(s0, k) {
                            let j = idx_of(s0, k);
                            assert(0 <= j < n && s0[j].0 == k);
                            assert(j != ii);
                            let j1 = if j < ii { j } else { j - 1 };
                            assert(s1[j1].0 == k);
                        }
                        if has_id(s1, k) {
                            let j = idx_of(s1, k);
                            let j0 = if j < ii { j } else { j + 1 };
                            assert(s0[j0].0 == k);
                        }
                    }
                    assert forall|k: u64| k != id && has_id(s0, k) implies #[trigger] val_of(
                        s1,
                        k,
                    ) == val_of(s0, k) by {
                        let j = idx_of(s0, k);
                        assert(0 <= j < n && s0[j].0 == k);
                        assert(j != ii);
                        let j1 = if j < ii { j } else { j - 1 };
                        assert(s1[j1] == s0[j]);
                        lemma_idx_of_unique(s1, j1);
                        lemma_idx_of_unique(s0, j);
                    }
                    assert(has_id(s0, id)) by {
                        assert(s0[ii].0 == id);
                    }
                }
            },
            None => {},
        }
    }

    /// The keys of all entries, in table order.
    pub fn ids(&self) -> (r: Vec<u64>)
        ensures
            r@.len() == self@.len(),
            forall|i: int| 0 <= i < r@.len() ==> r@[i] == (#[trigger] self@[i]).0,
    {
        let n = self.entries.len();
        let mut out: Vec<u64> = Vec::new();
        let mut i: usize = 0;
        while i < n
            invariant
                i <= n,
                n == self@.len(),
                out@.len() == i,
                forall|j: int| 0 <= j < i ==> out@[j] == (#[trigger] self@[j]).0,
            decreases n - i,
        {
            out.push(self.entries[i].0);
            i = i + 1;
        }
        out
    }
}

} // verus!
