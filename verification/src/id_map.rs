//! An ordered map from `u32` ids to values, stored as a vector of entries
//! whose keys are kept strictly increasing. The abstract value of a map is a
//! `Map<u32, _>` over the views of the stored values; keeping the entries
//! sorted makes the persisted form of a snapshot canonical.

use vstd::prelude::*;

verus! {

/// Entries with strictly increasing keys (hence unique keys).
pub open spec fn strictly_sorted_keys<V>(s: Seq<(u32, V)>) -> bool {
    forall|i: int, j: int| 0 <= i < j < s.len() ==> s[i].0 < s[j].0
}

/// The map described by a sequence of entries; a later entry with the same
/// key wins (with sorted keys there is no such conflict).
pub open spec fn map_of<V: View>(s: Seq<(u32, V)>) -> Map<u32, V::V>
    decreases s.len(),
{
    if s.len() == 0 {
        Map::empty()
    } else {
        map_of(s.drop_last()).insert(s.last().0, s.last().1@)
    }
}

/// A key is in the map exactly when some entry carries it.
pub proof fn lemma_map_of_contains<V: View>(s: Seq<(u32, V)>, k: u32)
    ensures
        map_of(s).dom().contains(k) <==> exists|i: int| 0 <= i < s.len() && s[i].0 == k,
    decreases s.len(),
{
    if s.len() > 0 {
        lemma_map_of_contains(s.drop_last(), k);
        if s.last().0 == k {
            assert(s[s.len() - 1].0 == k);
        } else if exists|i: int| 0 <= i < s.len() && s[i].0 == k {
            let i = choose|i: int| 0 <= i < s.len() && s[i].0 == k;
            assert(0 <= i < s.len() - 1 && s.drop_last()[i].0 == k);
        }
    }
}

/// With unique keys, each entry gives the value of its key.
pub proof fn lemma_map_of_value<V: View>(s: Seq<(u32, V)>, i: int)
    requires
        strictly_sorted_keys(s),
        0 <= i < s.len(),
    ensures
        map_of(s).dom().contains(s[i].0),
        map_of(s)[s[i].0] == s[i].1@,
    decreases s.len(),
{
    if i == s.len() - 1 {
    } else {
        assert(s[i].0 < s.last().0);
        lemma_map_of_value(s.drop_last(), i);
        assert(s.drop_last()[i] == s[i]);
    }
}

/// An ordered map from ids to values. `entries` must be kept strictly sorted
/// by key ([`IdMap::wf`]); every operation requires and preserves that.
#[derive(Debug, PartialEq, Eq)]
pub struct IdMap<V> {
    pub entries: Vec<(u32, V)>,
}

impl<V: View> View for IdMap<V> {
    type V = Map<u32, V::V>;

    open spec fn view(&self) -> Map<u32, V::V> {
        map_of(self.entries@)
    }
}

impl<V: View> IdMap<V> {
    /// The keys of the entries are strictly increasing.
    pub open spec fn wf(&self) -> bool {
        strictly_sorted_keys(self.entries@)
    }

    /// An empty map.
    pub fn new() -> (r: Self)
        ensures
            r.wf(),
            r@ == Map::<u32, V::V>::empty(),
            r.entries@.len() == 0,
    {
        IdMap { entries: Vec::new() }
    }

    /// The number of entries.
    pub fn len(&self) -> (r: usize)
        ensures
            r == self.entries@.len(),
    {
        self.entries.len()
    }

    /// The position of the entry with key `k`, if one exists.
    fn index_of(&self, k: u32) -> (r: Option<usize>)
        ensures
            match r {
                Some(i) => i < self.entries@.len() && self.entries@[i as int].0 == k,
                None => forall|i: int| 0 <= i < self.entries@.len() ==> self.entries@[i].0 != k,
            },
    {
        let n = self.entries.len();
        let mut i: usize = 0;
        while i < n
            invariant
                n == self.entries@.len(),
                i <= n,
                forall|j: int| 0 <= j < i ==> self.entries@[j].0 != k,
            decreases n - i,
        {
            if self.entries[i].0 == k {
                return Some(i);
            }
            i = i + 1;
        }
        None
    }

    /// Whether the map holds key `k`.
    pub fn contains_key(&self, k: u32) -> (r: bool)
        ensures
            r == self@.dom().contains(k),
    {
        proof {
            lemma_map_of_contains(self.entries@, k);
        }
        self.index_of(k).is_some()
    }

    /// The value under key `k`, if the key is present.
    pub fn get(&self, k: u32) -> (r: Option<&V>)
        requires
            self.wf(),
        ensures
            match r {
                Some(v) => self@.dom().contains(k) && v@ == self@[k],
                None => !self@.dom().contains(k),
            },
    {
        proof {
            lemma_map_of_contains(self.entries@, k);
        }
        match self.index_of(k) {
            Some(i) => {
                proof {
                    lemma_map_of_value(self.entries@, i as int);
                }
                Some(&self.entries[i].1)
            },
            None => None,
        }
    }

    /// Removes the entry under key `k` and returns its value, if present.
    pub fn remove(&mut self, k: u32) -> (r: Option<V>)
        requires
            old(self).wf(),
        ensures
            final(self).wf(),
            final(self)@ == old(self)@.remove(k),
            match r {
                Some(v) => old(self)@.dom().contains(k) && v@ == old(self)@[k],
                None => !old(self)@.dom().contains(k) && *final(self) == *old(self),
            },
    {
        proof {
            lemma_map_of_contains(self.entries@, k);
        }
        match self.index_of(k) {
            Some(i) => {
                proof {
                    lemma_map_of_value(self.entries@, i as int);
                    lemma_remove_entry(self.entries@, i as int);
                }
                let (_, v) = self.entries.remove(i);
                Some(v)
            },
            None => {
                proof {
                    assert(old(self)@ =~= old(self)@.remove(k));
                }
                None
            },
        }
    }

    /// Inserts `v` under key `k`, replacing any value already there.
    pub fn insert(&mut self, k: u32, v: V)
        requires
            old(self).wf(),
        ensures
            final(self).wf(),
            final(self)@ == old(self)@.insert(k, v@),
    {
        let _ = self.remove(k);
        let ghost removed = self.entries@;
        proof {
            lemma_map_of_contains(removed, k);
        }
        let n = self.entries.len();
        let mut i: usize = 0;
        while i < n && self.entries[i].0 < k
            invariant
                n == self.entries@.len(),
                i <= n,
                self.entries@ == removed,
                forall|j: int| 0 <= j < i ==> self.entries@[j].0 < k,
            decreases n - i,
        {
            i = i + 1;
        }
        proof {
            assert forall|j: int| i <= j < removed.len() implies removed[j].0 > k by {
                assert(removed[j].0 != k);
                if j > i {
                    assert(removed[i as int].0 < removed[j].0);
                }
            }
            lemma_insert_entry(removed, i as int, k, v);
        }
        self.entries.insert(i, (k, v));
        proof {
            assert(old(self)@.remove(k).insert(k, v@) =~= old(self)@.insert(k, v@));
        }
    }

    /// Appends an entry whose key exceeds every key already present.
    pub fn push_max(&mut self, k: u32, v: V)
        requires
            old(self).wf(),
            forall|i: int| 0 <= i < old(self).entries@.len() ==> old(self).entries@[i].0 < k,
        ensures
            final(self).wf(),
            final(self).entries@ == old(self).entries@.push((k, v)),
            final(self)@ == old(self)@.insert(k, v@),
    {
        self.entries.push((k, v));
        proof {
            assert(self.entries@.drop_last() =~= old(self).entries@);
        }
    }
}

/// Removing the entry at `i` removes exactly its key from the map.
proof fn lemma_remove_entry<V: View>(s: Seq<(u32, V)>, i: int)
    requires
        strictly_sorted_keys(s),
        0 <= i < s.len(),
    ensures
        strictly_sorted_keys(s.remove(i)),
        map_of(s.remove(i)) == map_of(s).remove(s[i].0),
{
    let t = s.remove(i);
    let k = s[i].0;
    s.remove_ensures(i);
    assert forall|a: int, b: int| 0 <= a < b < t.len() implies t[a].0 < t[b].0 by {
        let a0 = if a < i { a } else { a + 1 };
        let b0 = if b < i { b } else { b + 1 };
        assert(t[a] == s[a0] && t[b] == s[b0]);
    }
    assert forall|k2: u32| #[trigger] map_of(t).dom().contains(k2) implies map_of(s).remove(
        k,
    ).dom().contains(k2) && map_of(t)[k2] == map_of(s).remove(k)[k2] by {
        lemma_map_of_contains(t, k2);
        let j = choose|j: int| 0 <= j < t.len() && t[j].0 == k2;
        let j0 = if j < i { j } else { j + 1 };
        assert(t[j] == s[j0]);
        assert(k2 != k);
        lemma_map_of_value(t, j);
        lemma_map_of_value(s, j0);
    }
    assert forall|k2: u32| #[trigger] map_of(s).remove(k).dom().contains(k2) implies map_of(
        t,
    ).dom().contains(k2) by {
        lemma_map_of_contains(s, k2);
        let j0 = choose|j0: int| 0 <= j0 < s.len() && s[j0].0 == k2;
        assert(j0 != i);
        let j = if j0 < i { j0 } else { j0 - 1 };
        assert(t[j] == s[j0]);
        lemma_map_of_contains(t, k2);
    }
    assert(map_of(t) =~= map_of(s).remove(k));
}

/// Splicing an entry in at its sorted position inserts exactly its key.
proof fn lemma_insert_entry<V: View>(s: Seq<(u32, V)>, i: int, k: u32, v: V)
    requires
        strictly_sorted_keys(s),
        0 <= i <= s.len(),
        forall|j: int| 0 <= j < i ==> s[j].0 < k,
        forall|j: int| i <= j < s.len() ==> s[j].0 > k,
    ensures
        strictly_sorted_keys(s.insert(i, (k, v))),
        map_of(s.insert(i, (k, v))) == map_of(s).insert(k, v@),
{
    let t = s.insert(i, (k, v));
    s.insert_ensures(i, (k, v));
    assert forall|a: int, b: int| 0 <= a < b < t.len() implies t[a].0 < t[b].0 by {
        if a < i { assert(t[a] == s[a]); } else if a > i { assert(t[a] == s[a - 1]); }
        if b < i { assert(t[b] == s[b]); } else if b > i { assert(t[b] == s[b - 1]); }
    }
    assert forall|k2: u32| #[trigger] map_of(t).dom().contains(k2) implies map_of(s).insert(
        k,
        v@,
    ).dom().contains(k2) && map_of(t)[k2] == map_of(s).insert(k, v@)[k2] by {
        lemma_map_of_contains(t, k2);
        let j = choose|j: int| 0 <= j < t.len() && t[j].0 == k2;
        lemma_map_of_value(t, j);
        if j == i {
            assert(k2 == k);
        } else {
            let j0 = if j < i { j } else { j - 1 };
            assert(s[j0] == t[j]);
            assert(k2 != k);
            lemma_map_of_value(s, j0);
        }
    }
    assert forall|k2: u32| #[trigger] map_of(s).insert(k, v@).dom().contains(k2) implies map_of(
        t,
    ).dom().contains(k2) by {
        if k2 == k {
            assert(t[i].0 == k);
        } else {
            lemma_map_of_contains(s, k2);
            let j0 = choose|j0: int| 0 <= j0 < s.len() && s[j0].0 == k2;
            let j = if j0 < i { j0 } else { j0 + 1 };
            assert(t[j] == s[j0]);
        }
        lemma_map_of_contains(t, k2);
    }
    assert(map_of(t) =~= map_of(s).insert(k, v@));
}

} // verus!
