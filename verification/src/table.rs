//! A map from texts to values that keeps its entries in ascending order of
//! their keys.

use crate::order::{
    ascending, lemma_rank, lemma_rank_bounds, lemma_rank_finds, lemma_rank_splits, lemma_with_text, rank,
};
use crate::text::{law_lex_irreflexive, lex_lt, precedes};
use vstd::prelude::*;

verus! {

/// The keys of a list of entries.
pub open spec fn keys_of<T>(e: Seq<(Seq<char>, T)>) -> Seq<Seq<char>> {
    e.map_values(|p: (Seq<char>, T)| p.0)
}

/// The value of the first entry with key `k`, if there is one.
pub open spec fn lookup<T>(e: Seq<(Seq<char>, T)>, k: Seq<char>) -> Option<T>
    decreases e.len(),
{
    if e.len() == 0 {
        None
    } else if e[0].0 == k {
        Some(e[0].1)
    } else {
        lookup(e.drop_first(), k)
    }
}

/// Ascending entries with the value of `k` set to `v`.
pub open spec fn put<T>(e: Seq<(Seq<char>, T)>, k: Seq<char>, v: T) -> Seq<(Seq<char>, T)> {
    let r = rank(keys_of(e), k);
    if r < e.len() && e[r].0 == k {
        e.update(r, (k, v))
    } else {
        e.insert(r, (k, v))
    }
}

pub proof fn lemma_lookup_hit<T>(e: Seq<(Seq<char>, T)>, i: int)
    requires
        ascending(keys_of(e)),
        0 <= i < e.len(),
    ensures
        lookup(e, e[i].0) == Some(e[i].1),
    decreases e.len(),
{
    if i > 0 {
        let keys = keys_of(e);
        assert(lex_lt(keys[0], keys[i]));
        law_lex_irreflexive(keys[0]);
        let t = e.drop_first();
        lemma_tail_ascending(e);
        assert(t[i - 1] == e[i]);
        lemma_lookup_hit(t, i - 1);
    }
}

pub proof fn lemma_tail_ascending<T>(e: Seq<(Seq<char>, T)>)
    requires
        ascending(keys_of(e)),
        e.len() > 0,
    ensures
        ascending(keys_of(e.drop_first())),
{
    let keys = keys_of(e);
    let tail = keys_of(e.drop_first());
    assert forall|i: int, j: int| 0 <= i < j < tail.len() implies lex_lt(
        #[trigger] tail[i],
        #[trigger] tail[j],
    ) by {
        assert(lex_lt(keys[i + 1], keys[j + 1]));
    }
}

pub proof fn lemma_lookup_miss<T>(e: Seq<(Seq<char>, T)>, k: Seq<char>)
    ensures
        lookup(e, k) is None <==> !keys_of(e).contains(k),
    decreases e.len(),
{
    let keys = keys_of(e);
    if e.len() > 0 {
        let t = e.drop_first();
        lemma_lookup_miss(t, k);
        assert(keys_of(t) =~= keys.drop_first());
        if e[0].0 == k {
            assert(keys[0] == k);
        } else if keys_of(t).contains(k) {
            let i = choose|i: int| 0 <= i < t.len() && keys_of(t)[i] == k;
            assert(keys[i + 1] == k);
        } else if keys.contains(k) {
            let i = choose|i: int| 0 <= i < keys.len() && keys[i] == k;
            assert(keys_of(t)[i - 1] == k);
        }
    }
}

/// Setting a key keeps the keys ascending, sets that key and no other.
pub proof fn law_put<T>(e: Seq<(Seq<char>, T)>, k: Seq<char>, v: T, q: Seq<char>)
    requires
        ascending(keys_of(e)),
    ensures
        ascending(keys_of(put(e, k, v))),
        lookup(put(e, k, v), q) == if q == k {
            Some(v)
        } else {
            lookup(e, q)
        },
{
    let keys = keys_of(e);
    let r = rank(keys, k);
    let n = put(e, k, v);
    lemma_rank_bounds(keys, k);
    lemma_rank_finds(keys, k);
    if r < e.len() && e[r].0 == k {
        assert(keys_of(n) =~= keys);
    } else {
        assert(!keys.contains(k)) by {
            if keys.contains(k) {
                assert(keys[r] == e[r].0);
            }
        }
        lemma_rank_splits(keys, k);
        assert(keys_of(n) =~= keys.insert(r, k));
        lemma_with_text(keys, k);
    }
    assert(n[r].0 == k && n[r].1 == v);
    lemma_lookup_hit(n, r);
    if q != k {
        lemma_lookup_miss(e, q);
        lemma_lookup_miss(n, q);
        if keys.contains(q) {
            let i = choose|i: int| 0 <= i < keys.len() && keys[i] == q;
            lemma_lookup_hit(e, i);
            if n.len() == e.len() || i < r {
                assert(n[i] == e[i]);
                lemma_lookup_hit(n, i);
            } else {
                assert(n[i + 1] == e[i]);
                lemma_lookup_hit(n, i + 1);
            }
        } else if keys_of(n).contains(q) {
            let i = choose|i: int| 0 <= i < n.len() && keys_of(n)[i] == q;
            if n.len() == e.len() || i < r {
                assert(keys[i] == q);
            } else {
                assert(keys[i - 1] == q);
            }
        }
    }
}

/// A map from texts to values, in ascending order of its keys.
pub struct Table<V: View> {
    entries: Vec<(String, V)>,
}

impl<V: View> View for Table<V> {
    type V = Seq<(Seq<char>, V::V)>;

    closed spec fn view(&self) -> Seq<(Seq<char>, V::V)> {
        self.entries@.map_values(|e: (String, V)| (e.0@, e.1@))
    }
}

impl<V: View> Table<V> {
    #[verifier::type_invariant]
    closed spec fn is_ascending(&self) -> bool {
        ascending(keys_of(self@))
    }

    /// An empty table.
    pub fn new() -> (t: Self)
        ensures
            t@ == Seq::<(Seq<char>, V::V)>::empty(),
    {
        let entries: Vec<(String, V)> = Vec::new();
        assert(entries@.map_values(|e: (String, V)| (e.0@, e.1@)) =~= Seq::<
            (Seq<char>, V::V),
        >::empty());
        Table { entries }
    }

    /// The number of entries.
    pub fn len(&self) -> (n: usize)
        ensures
            n == self@.len(),
            ascending(keys_of(self@)),
    {
        proof {
            use_type_invariant(self);
        }
        self.entries.len()
    }

    /// The key of the entry at a position.
    pub fn key(&self, i: usize) -> (k: &str)
        requires
            i < self@.len(),
        ensures
            k@ == self@[i as int].0,
    {
        self.entries[i].0.as_str()
    }

    /// The value of the entry at a position.
    pub fn value(&self, i: usize) -> (v: &V)
        requires
            i < self@.len(),
        ensures
            v@ == self@[i as int].1,
    {
        &self.entries[i].1
    }

    /// The first position whose key does not precede `k`.
    fn place(&self, k: &str) -> (r: usize)
        ensures
            r == rank(keys_of(self@), k@),
            r <= self@.len(),
    {
        let mut r: usize = 0;
        while r < self.entries.len() && precedes(self.entries[r].0.as_str(), k)
            invariant
                r <= self.entries@.len(),
                forall|j: int| 0 <= j < r ==> lex_lt((#[trigger] self.entries@[j]).0@, k@),
            decreases self.entries@.len() - r,
        {
            r += 1;
        }
        proof {
            let keys = keys_of(self@);
            assert forall|j: int| 0 <= j < r implies lex_lt(#[trigger] keys[j], k@) by {
                assert(lex_lt(self.entries@[j].0@, k@));
            }
            lemma_rank(keys, k@, r as int);
        }
        r
    }

    /// The value of a key.
    pub fn get(&self, k: &str) -> (v: Option<&V>)
        ensures
            match v {
                Some(x) => lookup(self@, k@) == Some(x@),
                None => lookup(self@, k@) is None,
            },
            ascending(keys_of(self@)),
    {
        proof {
            use_type_invariant(self);
        }
        let r = self.place(k);
        proof {
            lemma_rank_finds(keys_of(self@), k@);
            lemma_lookup_miss(self@, k@);
        }
        if r < self.entries.len() && *self.entries[r].0.as_str() == *k {
            proof {
                lemma_lookup_hit(self@, r as int);
            }
            Some(&self.entries[r].1)
        } else {
            assert(r < self@.len() ==> keys_of(self@)[r as int] == self.entries@[r as int].0@);
            None
        }
    }

    /// Whether a key has a value.
    pub fn contains(&self, k: &str) -> (b: bool)
        ensures
            b == lookup(self@, k@) is Some,
    {
        self.get(k).is_some()
    }

    /// Sets the value of a key.
    pub fn insert(&mut self, k: String, v: V)
        ensures
            final(self)@ == put(old(self)@, k@, v@),
    {
        proof {
            use_type_invariant(&*self);
            law_put(self@, k@, v@, k@);
        }
        let r = self.place(k.as_str());
        let ghost before = self@;
        let ghost key = k@;
        let ghost val = v@;
        let mut entries: Vec<(String, V)> = Vec::new();
        std::mem::swap(&mut self.entries, &mut entries);
        if r < entries.len() && *entries[r].0.as_str() == *k.as_str() {
            entries.set(r, (k, v));
        } else {
            entries.insert(r, (k, v));
        }
        assert(entries@.map_values(|e: (String, V)| (e.0@, e.1@)) =~= put(before, key, val));
        self.entries = entries;
    }
}

/// What a table says of a key is what its entry with that key holds, and without
/// such an entry it says nothing.
pub proof fn law_lookup<T>(e: Seq<(Seq<char>, T)>, k: Seq<char>, i: int)
    requires
        ascending(keys_of(e)),
    ensures
        0 <= i < e.len() && e[i].0 == k ==> lookup(e, k) == Some(e[i].1),
        lookup(e, k) is None <==> forall|j: int| 0 <= j < e.len() ==> (#[trigger] e[j]).0 != k,
{
    if 0 <= i < e.len() && e[i].0 == k {
        lemma_lookup_hit(e, i);
    }
    lemma_lookup_miss(e, k);
    let keys = keys_of(e);
    if keys.contains(k) {
        let j = choose|j: int| 0 <= j < keys.len() && keys[j] == k;
        assert(e[j].0 == k);
    } else {
        assert forall|j: int| 0 <= j < e.len() implies (#[trigger] e[j]).0 != k by {
            assert(keys[j] == e[j].0);
        }
    }
}

} // verus!
