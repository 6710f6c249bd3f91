//! A small map from lattice points to values, kept as a vector of key-value
//! pairs with pairwise-distinct keys and viewed as a mathematical `Map`.

use vstd::prelude::*;

verus! {

use crate::coord::V2i;

/// The finite map a key-value sequence denotes; a later entry for a key wins,
/// though well-formed maps never hold a key twice.
pub open spec fn map_of<V>(s: Seq<(V2i, V)>) -> Map<V2i, V>
    decreases s.len(),
{
    if s.len() == 0 {
        Map::empty()
    } else {
        map_of(s.drop_last()).insert(s.last().0, s.last().1)
    }
}

/// No key occurs twice.
pub open spec fn unique_keys<V>(s: Seq<(V2i, V)>) -> bool {
    forall|i: int, j: int| 0 <= i < j < s.len() ==> (#[trigger] s[i]).0 != (#[trigger] s[j]).0
}

/// The position of the last entry for `k`, or `-1` when there is none.
pub open spec fn key_index<V>(s: Seq<(V2i, V)>, k: V2i) -> int
    decreases s.len(),
{
    if s.len() == 0 {
        -1
    } else if s.last().0 == k {
        s.len() - 1
    } else {
        key_index(s.drop_last(), k)
    }
}

/// `key_index` finds a key exactly when the map holds it, and points at an
/// entry carrying the key and the map's value for it.
pub proof fn lemma_key_index<V>(s: Seq<(V2i, V)>, k: V2i)
    ensures
        map_of(s).contains_key(k) <==> 0 <= key_index(s, k),
        0 <= key_index(s, k) ==> {
            &&& key_index(s, k) < s.len()
            &&& s[key_index(s, k)].0 == k
            &&& map_of(s)[k] == s[key_index(s, k)].1
        },
    decreases s.len(),
{
    if s.len() == 0 {
    } else if s.last().0 == k {
    } else {
        lemma_key_index(s.drop_last(), k);
    }
}

/// Every entry's key is in the map; under unique keys its value is the
/// entry's value.
pub proof fn lemma_entry_in_map<V>(s: Seq<(V2i, V)>, i: int)
    requires
        0 <= i < s.len(),
    ensures
        map_of(s).contains_key(s[i].0),
        unique_keys(s) ==> map_of(s)[s[i].0] == s[i].1,
    decreases s.len(),
{
    if i == s.len() - 1 {
    } else {
        lemma_entry_in_map(s.drop_last(), i);
        if unique_keys(s) {
            assert(unique_keys(s.drop_last()));
            assert(s.last().0 != s[i].0);
        }
    }
}

/// Under unique keys the map's domain is finite with one key per entry.
pub proof fn lemma_map_len<V>(s: Seq<(V2i, V)>)
    requires
        unique_keys(s),
    ensures
        map_of(s).dom().finite(),
        map_of(s).dom().len() == s.len(),
    decreases s.len(),
{
    if s.len() == 0 {
        assert(map_of(s).dom() =~= Set::<V2i>::empty());
    } else {
        assert(unique_keys(s.drop_last()));
        lemma_map_len(s.drop_last());
        if map_of(s.drop_last()).contains_key(s.last().0) {
            lemma_key_index(s.drop_last(), s.last().0);
            let i = key_index(s.drop_last(), s.last().0);
            assert(s[i].0 == s.last().0);
            assert(false);
        }
        assert(map_of(s).dom() =~= map_of(s.drop_last()).dom().insert(s.last().0));
    }
}

/// Appending a fresh key extends the map by that key.
pub proof fn lemma_map_push<V>(s: Seq<(V2i, V)>, k: V2i, v: V)
    ensures
        map_of(s.push((k, v))) == map_of(s).insert(k, v),
        unique_keys(s) && !map_of(s).contains_key(k) ==> unique_keys(s.push((k, v))),
{
    assert(s.push((k, v)).drop_last() =~= s);
    if unique_keys(s) && !map_of(s).contains_key(k) {
        let t = s.push((k, v));
        assert forall|i: int, j: int| 0 <= i < j < t.len() implies (#[trigger] t[i]).0
            != (#[trigger] t[j]).0 by {
            if j == t.len() - 1 {
                lemma_entry_in_map(s, i);
            }
        }
    }
}

/// Overwriting the entry that holds a key updates the map at that key alone.
pub proof fn lemma_map_update<V>(s: Seq<(V2i, V)>, i: int)
    requires
        unique_keys(s),
        0 <= i < s.len(),
    ensures
        forall|v: V| #[trigger] map_of(s.update(i, (s[i].0, v))) == map_of(s).insert(s[i].0, v),
        forall|v: V| unique_keys(#[trigger] s.update(i, (s[i].0, v))),
    decreases s.len(),
{
    assert forall|v: V| unique_keys(#[trigger] s.update(i, (s[i].0, v))) by {
        let t = s.update(i, (s[i].0, v));
        assert forall|a: int, b: int| 0 <= a < b < t.len() implies (#[trigger] t[a]).0
            != (#[trigger] t[b]).0 by {
            assert(s[a].0 != s[b].0);
        }
    }
    assert forall|v: V| #[trigger] map_of(s.update(i, (s[i].0, v))) == map_of(s).insert(
        s[i].0,
        v,
    ) by {
        let t = s.update(i, (s[i].0, v));
        if i == s.len() - 1 {
            assert(t.drop_last() =~= s.drop_last());
            assert(map_of(t) == map_of(s.drop_last()).insert(s[i].0, v));
            assert(map_of(s.drop_last()).insert(s.last().0, s.last().1).insert(s[i].0, v)
                =~= map_of(s.drop_last()).insert(s[i].0, v));
        } else {
            assert(unique_keys(s.drop_last()));
            assert(t.drop_last() =~= s.drop_last().update(i, (s[i].0, v)));
            lemma_map_update(s.drop_last(), i);
            assert(s.drop_last()[i] == s[i]);
            assert(map_of(s.drop_last().update(i, (s.drop_last()[i].0, v))) == map_of(
                s.drop_last(),
            ).insert(s.drop_last()[i].0, v));
            assert(map_of(t.drop_last()) == map_of(s.drop_last()).insert(s[i].0, v));
            assert(s.last().0 != s[i].0);
            assert(t.last() == s.last());
            assert(map_of(s.drop_last()).insert(s[i].0, v).insert(s.last().0, s.last().1)
                =~= map_of(s.drop_last()).insert(s.last().0, s.last().1).insert(s[i].0, v));
        }
    }
}

/// A map from lattice points to values, backed by a vector of entries whose
/// keys are pairwise distinct.
#[derive(Debug)]
pub struct PointMap<V> {
    entries: Vec<(V2i, V)>,
}

impl<V> View for PointMap<V> {
    type V = Map<V2i, V>;

    open spec fn view(&self) -> Map<V2i, V> {
        map_of(self.kvs())
    }
}

impl<V> PointMap<V> {
    /// The backing entry sequence.
    pub closed spec fn kvs(self) -> Seq<(V2i, V)> {
        self.entries@
    }

    pub open spec fn wf(self) -> bool {
        unique_keys(self.kvs())
    }

    pub fn new() -> (r: PointMap<V>)
        ensures
            r.wf(),
            r.kvs() == Seq::<(V2i, V)>::empty(),
            r@ == Map::<V2i, V>::empty(),
    {
        PointMap { entries: Vec::new() }
    }

    pub fn len(&self) -> (n: usize)
        ensures
            n == self.kvs().len(),
    {
        self.entries.len()
    }

    /// The position of the entry holding `k`, if the map holds `k`.
    fn find(&self, k: V2i) -> (r: Option<usize>)
        requires
            self.wf(),
        ensures
            match r {
                Some(i) => {
                    &&& i < self.kvs().len()
                    &&& self.kvs()[i as int].0 == k
                    &&& self@.contains_key(k)
                    &&& i == key_index(self.kvs(), k)
                },
                None => !self@.contains_key(k),
            },
    {
        let n: usize = self.entries.len();
        let mut i: usize = 0;
        while i < n
            invariant
                n == self.kvs().len(),
                i <= n,
                self.wf(),
                forall|j: int| 0 <= j < i ==> (#[trigger] self.kvs()[j]).0 != k,
            decreases n - i,
        {
            if self.entries[i].0 == k {
                proof {
                    lemma_entry_in_map(self.kvs(), i as int);
                    lemma_key_index(self.kvs(), k);
                    let ki = key_index(self.kvs(), k);
                    assert(self.kvs()[ki].0 == k);
                    if ki != i {
                        assert(false);
                    }
                }
                return Some(i);
            }
            i = i + 1;
        }
        proof {
            if self@.contains_key(k) {
                lemma_key_index(self.kvs(), k);
            }
        }
        None
    }

    pub fn contains(&self, k: V2i) -> (r: bool)
        requires
            self.wf(),
        ensures
            r == self@.contains_key(k),
    {
        self.find(k).is_some()
    }

    pub fn get(&self, k: V2i) -> (r: Option<&V>)
        requires
            self.wf(),
        ensures
            match r {
                Some(t) => self@.contains_key(k) && *t == self@[k],
                None => !self@.contains_key(k),
            },
    {
        match self.find(k) {
            Some(i) => {
                proof {
                    lemma_entry_in_map(self.kvs(), i as int);
                }
                Some(&self.entries[i].1)
            },
            None => None,
        }
    }

    /// A mutable borrow of the value under `k`; the map afterwards holds,
    /// at `k`, whatever the caller leaves in the borrow.
    pub fn get_mut(&mut self, k: V2i) -> (r: Option<&mut V>)
        requires
            old(self).wf(),
        ensures
            final(self).wf(),
            match r {
                Some(t) => {
                    &&& old(self)@.contains_key(k)
                    &&& *t == old(self)@[k]
                    &&& final(self).kvs() == old(self).kvs().update(
                        key_index(old(self).kvs(), k),
                        (k, *final(t)),
                    )
                    &&& final(self)@ == old(self)@.insert(k, *final(t))
                    &&& final(self).kvs().len() == old(self).kvs().len()
                },
                None => {
                    &&& !old(self)@.contains_key(k)
                    &&& *final(self) == *old(self)
                },
            },
    {
        match self.find(k) {
            Some(i) => {
                proof {
                    lemma_entry_in_map(self.kvs(), i as int);
                    lemma_map_update(self.kvs(), i as int);
                }
                let e: &mut (V2i, V) = &mut self.entries[i];
                Some(&mut e.1)
            },
            None => None,
        }
    }

    /// Binds `k` to `v`, overwriting any earlier binding.
    pub fn insert(&mut self, k: V2i, v: V)
        requires
            old(self).wf(),
        ensures
            final(self).wf(),
            final(self)@ == old(self)@.insert(k, v),
            old(self)@.contains_key(k) ==> {
                &&& final(self).kvs() == old(self).kvs().update(
                    key_index(old(self).kvs(), k),
                    (k, v),
                )
                &&& final(self).kvs().len() == old(self).kvs().len()
            },
            !old(self)@.contains_key(k) ==> {
                &&& final(self).kvs() == old(self).kvs().push((k, v))
                &&& final(self).kvs().len() == old(self).kvs().len() + 1
            },
    {
        match self.find(k) {
            Some(i) => {
                proof {
                    lemma_entry_in_map(self.kvs(), i as int);
                    lemma_map_update(self.kvs(), i as int);
                }
                let e: &mut (V2i, V) = &mut self.entries[i];
                *e = (k, v);
            },
            None => {
                proof {
                    lemma_map_push(self.kvs(), k, v);
                }
                self.entries.push((k, v));
            },
        }
    }
}

} // verus!
