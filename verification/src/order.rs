//! Orders on lists: stable sorting by a key, the distinct elements of
//! a list, and the ascending list of the texts that occur in one.

use crate::text::{
    law_lex_irreflexive, law_lex_total, law_lex_transitive, lemma_views_push, lex_lt, precedes,
    views,
};
use vstd::pervasive::cloned;
use vstd::prelude::*;

verus! {

// ------------------------------------------------------------ stable sorting

/// What a list is sorted by: a number, then a text.
pub struct SortKey {
    /// The number, which comes first.
    pub number: i128,
    /// The text, which breaks ties.
    pub text: String,
}

impl View for SortKey {
    type V = (int, Seq<char>);

    open spec fn view(&self) -> (int, Seq<char>) {
        (self.number as int, self.text@)
    }
}

/// The order of the keys.
pub open spec fn key_lt(a: (int, Seq<char>), b: (int, Seq<char>)) -> bool {
    a.0 < b.0 || (a.0 == b.0 && lex_lt(a.1, b.1))
}

/// The order of the keys is transitive.
pub proof fn lemma_key_lt_transitive(
    a: (int, Seq<char>),
    b: (int, Seq<char>),
    c: (int, Seq<char>),
)
    requires
        key_lt(a, b),
        key_lt(b, c),
    ensures
        key_lt(a, c),
{
    if a.0 == b.0 && b.0 == c.0 {
        law_lex_transitive(a.1, b.1, c.1);
    }
}

/// The order of the keys is total and strict.
pub proof fn lemma_key_lt_total(a: (int, Seq<char>), b: (int, Seq<char>))
    ensures
        key_lt(a, b) || key_lt(b, a) || a == b,
        !(key_lt(a, b) && key_lt(b, a)),
        !key_lt(a, a),
{
    law_lex_total(a.1, b.1);
    law_lex_irreflexive(a.1);
    if lex_lt(a.1, b.1) && lex_lt(b.1, a.1) {
        law_lex_transitive(a.1, b.1, a.1);
    }
}

/// The element at position `i` belongs before the one at position `j`: its key
/// is smaller, or the keys are equal and it stands first.
pub open spec fn comes_before(keys: Seq<(int, Seq<char>)>, i: int, j: int) -> bool {
    key_lt(keys[i], keys[j]) || (keys[i] == keys[j] && i < j)
}

/// `p` lists the positions of `keys` so that the keys ascend, and equal keys
/// keep the order in which they stand.
pub open spec fn stable_order(keys: Seq<(int, Seq<char>)>, p: Seq<int>) -> bool {
    &&& p.len() == keys.len()
    &&& forall|i: int| 0 <= i < p.len() ==> 0 <= #[trigger] p[i] < keys.len()
    &&& forall|i: int, j: int|
        0 <= i < j < p.len() ==> comes_before(keys, #[trigger] p[i], #[trigger] p[j])
}

/// `after` holds the elements of `before` in a stable order of their keys.
pub open spec fn stably_sorted<T>(
    before: Seq<T>,
    keys: Seq<(int, Seq<char>)>,
    after: Seq<T>,
) -> bool {
    exists|p: Seq<int>| #[trigger]
        stable_order(keys, p) && after == p.map_values(|k: int| before[k])
}

/// The positions of a list.
pub open spec fn positions(s: Seq<usize>) -> Seq<int> {
    s.map_values(|k: usize| k as int)
}

/// Whether one key precedes another.
fn key_precedes(a: &SortKey, b: &SortKey) -> (r: bool)
    ensures
        r == key_lt(a@, b@),
{
    a.number < b.number || (a.number == b.number && precedes(a.text.as_str(), b.text.as_str()))
}

/// The positions of `keys` in a stable order.
pub fn order_of(keys: &Vec<SortKey>) -> (p: Vec<usize>)
    ensures
        stable_order(views(keys@), positions(p@)),
{
    let mut p: Vec<usize> = Vec::new();
    let ghost k = views(keys@);
    for i in 0..keys.len()
        invariant
            k == views(keys@),
            p@.len() == i,
            i <= keys@.len(),
            forall|a: int| 0 <= a < p@.len() ==> #[trigger] p@[a] < i,
            forall|a: int, b: int|
                0 <= a < b < p@.len() ==> comes_before(
                    k,
                    #[trigger] p@[a] as int,
                    #[trigger] p@[b] as int,
                ),
    {
        let mut at: usize = p.len();
        while at > 0 && key_precedes(&keys[i], &keys[p[at - 1]])
            invariant
                k == views(keys@),
                p@.len() == i,
                i < keys@.len(),
                at <= p@.len(),
                forall|a: int| 0 <= a < p@.len() ==> #[trigger] p@[a] < i,
                forall|a: int| at <= a < p@.len() ==> key_lt(k[i as int], k[#[trigger] p@[a] as int]),
            decreases at,
        {
            at -= 1;
        }
        let ghost q = p@;
        p.insert(at, i);
        assert(forall|a: int| 0 <= a < at ==> #[trigger] p@[a] == q[a]);
        assert(forall|a: int| at < a < p@.len() ==> #[trigger] p@[a] == q[a - 1]);
        assert forall|a: int, b: int| 0 <= a < b < p@.len() implies comes_before(
            k,
            #[trigger] p@[a] as int,
            #[trigger] p@[b] as int,
        ) by {
            if b == at {
                let last = q[at - 1] as int;
                lemma_key_lt_total(k[last], k[i as int]);
                if a < at - 1 {
                    assert(comes_before(k, q[a] as int, last));
                    if key_lt(k[q[a] as int], k[last]) && key_lt(k[last], k[i as int]) {
                        lemma_key_lt_transitive(k[q[a] as int], k[last], k[i as int]);
                    }
                }
            } else if a != at {
                let x = if a < at { a } else { a - 1 };
                let y = if b < at { b } else { b - 1 };
                assert(comes_before(k, q[x] as int, q[y] as int));
            }
        }
    }
    assert forall|a: int, b: int| 0 <= a < b < positions(p@).len() implies comes_before(
        k,
        #[trigger] positions(p@)[a],
        #[trigger] positions(p@)[b],
    ) by {
        assert(comes_before(k, p@[a] as int, p@[b] as int));
    }
    p
}

/// Clones of a type look like what they were cloned from.
pub open spec fn clones_alike<T: View + Clone>() -> bool {
    forall|a: T, b: T| #[trigger] cloned(a, b) ==> a@ == b@
}

/// The elements at the given positions.
pub fn pick<T: View + Clone>(items: &Vec<T>, p: &Vec<usize>) -> (r: Vec<T>)
    requires
        clones_alike::<T>(),
        forall|i: int| 0 <= i < p@.len() ==> #[trigger] p@[i] < items@.len(),
    ensures
        views(r@) == positions(p@).map_values(|k: int| views(items@)[k]),
{
    let mut r: Vec<T> = Vec::new();
    for i in 0..p.len()
        invariant
            clones_alike::<T>(),
            forall|j: int| 0 <= j < p@.len() ==> #[trigger] p@[j] < items@.len(),
            r@.len() == i,
            forall|j: int| 0 <= j < i ==> (#[trigger] r@[j])@ == items@[p@[j] as int]@,
    {
        let item = items[p[i]].clone();
        assert(cloned(items@[p@[i as int] as int], item));
        r.push(item);
    }
    assert(views(r@) =~= positions(p@).map_values(|k: int| views(items@)[k]));
    r
}

/// A list in a stable order of the keys of its elements.
pub fn sort_by_keys<T: View + Clone>(items: &Vec<T>, keys: &Vec<SortKey>) -> (r: Vec<T>)
    requires
        clones_alike::<T>(),
        keys@.len() == items@.len(),
    ensures
        stably_sorted(views(items@), views(keys@), views(r@)),
{
    let p = order_of(keys);
    assert forall|i: int| 0 <= i < p@.len() implies #[trigger] p@[i] < items@.len() by {
        assert(0 <= positions(p@)[i] < views(keys@).len());
    }
    let r = pick(items, &p);
    assert(stable_order(views(keys@), positions(p@)));
    r
}

/// A stable order lists every position exactly once.
pub proof fn law_stable_order_is_permutation(keys: Seq<(int, Seq<char>)>, p: Seq<int>)
    requires
        stable_order(keys, p),
    ensures
        p.no_duplicates(),
        forall|k: int| 0 <= k < keys.len() ==> p.contains(k),
{
    assert forall|i: int, j: int| 0 <= i < p.len() && 0 <= j < p.len() && i != j implies p[i]
        != p[j] by {
        lemma_key_lt_total(keys[p[i]], keys[p[i]]);
        if i < j {
            assert(comes_before(keys, p[i], p[j]));
        } else {
            assert(comes_before(keys, p[j], p[i]));
        }
    }
    lemma_distinct_positions(p, keys.len());
}

/// As many distinct positions as there are cover them all.
pub proof fn lemma_distinct_positions(p: Seq<int>, n: nat)
    requires
        p.len() == n,
        p.no_duplicates(),
        forall|i: int| 0 <= i < p.len() ==> 0 <= #[trigger] p[i] < n,
    ensures
        forall|k: int| 0 <= k < n ==> p.contains(k),
{
    let all = Set::new(|k: int| 0 <= k < n);
    vstd::set_lib::lemma_int_range(0, n as int);
    assert(all =~= vstd::set_lib::set_int_range(0, n as int));
    p.unique_seq_to_set();
    assert(p.to_set().subset_of(all)) by {
        assert forall|k: int| p.to_set().contains(k) implies all.contains(k) by {
            let i = choose|i: int| 0 <= i < p.len() && p[i] == k;
            assert(0 <= p[i] < n);
        }
    }
    vstd::set_lib::lemma_len_subset(p.to_set(), all);
    vstd::set_lib::lemma_subset_equality(p.to_set(), all);
    assert forall|k: int| 0 <= k < n implies p.contains(k) by {
        assert(all.contains(k));
        assert(p.to_set().contains(k));
    }
}

/// There is only one stable order of the same keys.
pub proof fn law_stable_order_is_unique(
    keys: Seq<(int, Seq<char>)>,
    p: Seq<int>,
    q: Seq<int>,
)
    requires
        stable_order(keys, p),
        stable_order(keys, q),
    ensures
        p == q,
{
    law_stable_order_is_permutation(keys, p);
    law_stable_order_is_permutation(keys, q);
    lemma_orders_agree(keys, p, q, p.len() as int);
    assert(p.take(p.len() as int) =~= p);
    assert(q.take(q.len() as int) =~= q);
}

proof fn lemma_orders_agree(
    keys: Seq<(int, Seq<char>)>,
    p: Seq<int>,
    q: Seq<int>,
    n: int,
)
    requires
        stable_order(keys, p),
        stable_order(keys, q),
        p.no_duplicates(),
        q.no_duplicates(),
        forall|k: int| 0 <= k < keys.len() ==> p.contains(k),
        forall|k: int| 0 <= k < keys.len() ==> q.contains(k),
        0 <= n <= p.len(),
    ensures
        p.take(n) == q.take(n),
    decreases n,
{
    if n > 0 {
        let i = n - 1;
        lemma_orders_agree(keys, p, q, i);
        assert forall|j: int| 0 <= j < i implies p[j] == q[j] by {
            assert(p.take(i)[j] == q.take(i)[j]);
        }
        if p[i] != q[i] {
            assert(q.contains(p[i]));
            assert(p.contains(q[i]));
            let a = choose|a: int| 0 <= a < q.len() && q[a] == p[i];
            let b = choose|b: int| 0 <= b < p.len() && p[b] == q[i];
            assert(a > i) by {
                if a < i {
                    assert(p[a] == p[i]);
                }
            }
            assert(b > i) by {
                if b < i {
                    assert(q[b] == q[i]);
                }
            }
            assert(comes_before(keys, q[i], q[a]));
            assert(comes_before(keys, p[i], p[b]));
            lemma_key_lt_total(keys[p[i]], keys[q[i]]);
            lemma_key_lt_total(keys[p[i]], keys[p[i]]);
        }
        assert(p.take(n) =~= q.take(n));
    }
}

/// Sorting a list stably keeps its length and exactly its elements, and puts
/// them in ascending order of their keys.
pub proof fn law_stably_sorted<T>(
    before: Seq<T>,
    key: spec_fn(T) -> (int, Seq<char>),
    after: Seq<T>,
)
    requires
        stably_sorted(before, before.map_values(key), after),
    ensures
        after.len() == before.len(),
        forall|t: T| after.contains(t) <==> before.contains(t),
        forall|i: int, j: int|
            0 <= i < j < after.len() ==> !key_lt(key(#[trigger] after[j]), key(#[trigger] after[i])),
        before.no_duplicates() ==> after.no_duplicates(),
{
    let keys = before.map_values(key);
    let p = choose|p: Seq<int>| #[trigger]
        stable_order(keys, p) && after == p.map_values(|k: int| before[k]);
    law_stable_order_is_permutation(keys, p);
    assert forall|t: T| after.contains(t) <==> before.contains(t) by {
        if after.contains(t) {
            let i = choose|i: int| 0 <= i < after.len() && after[i] == t;
            assert(before[p[i]] == t);
        }
        if before.contains(t) {
            let k = choose|k: int| 0 <= k < before.len() && before[k] == t;
            assert(p.contains(k));
            let i = choose|i: int| 0 <= i < p.len() && p[i] == k;
            assert(after[i] == t);
        }
    }
    assert forall|i: int, j: int| 0 <= i < j < after.len() implies !key_lt(
        key(#[trigger] after[j]),
        key(#[trigger] after[i]),
    ) by {
        assert(comes_before(keys, p[i], p[j]));
        assert(keys[p[i]] == key(after[i]));
        assert(keys[p[j]] == key(after[j]));
        lemma_key_lt_total(keys[p[i]], keys[p[j]]);
    }
    if before.no_duplicates() {
        assert forall|i: int, j: int|
            0 <= i < after.len() && 0 <= j < after.len() && i != j implies after[i]
            != after[j] by {
            assert(p[i] != p[j]);
            assert(before[p[i]] != before[p[j]]);
        }
    }
}

/// How the chosen elements of the front of a list grow with it.
pub proof fn lemma_filter_take<T>(s: Seq<T>, p: spec_fn(T) -> bool, i: int)
    requires
        0 <= i <= s.len(),
    ensures
        s.take(0).filter(p) == Seq::<T>::empty(),
        s.take(s.len() as int).filter(p) == s.filter(p),
        i < s.len() ==> s.take(i + 1).filter(p) == if p(s[i]) {
            s.take(i).filter(p).push(s[i])
        } else {
            s.take(i).filter(p)
        },
{
    reveal(Seq::filter);
    assert(s.take(0).filter(p) =~= Seq::<T>::empty());
    assert(s.take(s.len() as int) =~= s);
    if i < s.len() {
        assert(s.take(i + 1).drop_last() =~= s.take(i));
    }
}

/// The first chosen element of a list is the one before which none is chosen.
pub proof fn lemma_filter_first<T>(s: Seq<T>, p: spec_fn(T) -> bool, i: int)
    requires
        0 <= i < s.len(),
        s.take(i).filter(p).len() == 0,
        p(s[i]),
    ensures
        s.filter(p).len() > 0,
        s.filter(p)[0] == s[i],
{
    lemma_filter_take(s, p, i);
    let f = s.take(i + 1).filter(p);
    assert(f[0] == s[i]);
    Seq::filter_distributes_over_add(s.take(i + 1), s.skip(i + 1), p);
    assert(s.take(i + 1) + s.skip(i + 1) =~= s);
}

/// The chosen elements of a list are its elements that are chosen.
pub proof fn lemma_filter_contains<T>(s: Seq<T>, p: spec_fn(T) -> bool, t: T)
    ensures
        s.filter(p).contains(t) <==> s.contains(t) && p(t),
    decreases s.len(),
{
    reveal(Seq::filter);
    if s.len() > 0 {
        let init = s.drop_last();
        let f = s.filter(p);
        lemma_filter_contains(init, p, t);
        if init.contains(t) {
            let i = choose|i: int| 0 <= i < init.len() && init[i] == t;
            assert(s[i] == t);
        }
        if s.contains(t) && t != s.last() {
            let i = choose|i: int| 0 <= i < s.len() && s[i] == t;
            assert(init[i] == t);
        }
        if init.filter(p).contains(t) {
            let i = choose|i: int| 0 <= i < init.filter(p).len() && init.filter(p)[i] == t;
            assert(f[i] == t);
        }
        if p(s.last()) {
            assert(f[f.len() - 1] == s.last());
            if f.contains(t) && t != s.last() {
                let i = choose|i: int| 0 <= i < f.len() && f[i] == t;
                assert(init.filter(p)[i] == t);
            }
        }
        if t == s.last() {
            assert(s[s.len() - 1] == t);
        }
    }
}

// -------------------------------------------------------- distinct elements

/// The elements of a list in the order of their first occurrence.
pub open spec fn distinct<T>(s: Seq<T>) -> Seq<T>
    decreases s.len(),
{
    if s.len() == 0 {
        Seq::empty()
    } else {
        with_distinct(distinct(s.drop_last()), s.last())
    }
}

/// A list with an element at its end, unless the list holds it already.
pub open spec fn with_distinct<T>(s: Seq<T>, t: T) -> Seq<T> {
    if s.contains(t) {
        s
    } else {
        s.push(t)
    }
}

/// A list with the elements of another appended that it does not hold yet.
pub open spec fn distinct_from<T>(s: Seq<T>, more: Seq<T>) -> Seq<T>
    decreases more.len(),
{
    if more.len() == 0 {
        s
    } else {
        with_distinct(distinct_from(s, more.drop_last()), more.last())
    }
}

/// The distinct elements of two lists in a row are those of the first, and then
/// those of the second that are new.
pub proof fn law_distinct_of_both<T>(a: Seq<T>, b: Seq<T>)
    ensures
        distinct(a + b) == distinct_from(distinct(a), b),
    decreases b.len(),
{
    if b.len() > 0 {
        law_distinct_of_both(a, b.drop_last());
        assert((a + b).drop_last() =~= a + b.drop_last());
        if a.len() + b.len() > 0 {
            assert((a + b).last() == b.last());
        }
    } else {
        assert(a + b =~= a);
    }
}

/// The distinct elements of a list are its elements, each once.
pub proof fn law_distinct<T>(s: Seq<T>)
    ensures
        distinct(s).no_duplicates(),
        forall|t: T| distinct(s).contains(t) <==> s.contains(t),
        distinct(s).len() <= s.len(),
    decreases s.len(),
{
    if s.len() > 0 {
        let init = s.drop_last();
        law_distinct(init);
        let d = distinct(init);
        assert forall|t: T| distinct(s).contains(t) <==> s.contains(t) by {
            if distinct(s).contains(t) && !d.contains(t) {
                assert(s[s.len() - 1] == t);
            }
            if d.contains(t) {
                assert(init.contains(t));
                let i = choose|i: int| 0 <= i < init.len() && init[i] == t;
                assert(s[i] == t);
                if !d.contains(s.last()) {
                    let k = choose|k: int| 0 <= k < d.len() && d[k] == t;
                    assert(d.push(s.last())[k] == t);
                }
            }
            if s.contains(t) && !init.contains(t) {
                let i = choose|i: int| 0 <= i < s.len() && s[i] == t;
                assert(i == s.len() - 1) by {
                    if i < s.len() - 1 {
                        assert(init[i] == t);
                    }
                }
                assert(t == s.last());
                if !d.contains(t) {
                    assert(d.push(t)[d.len() as int] == t);
                }
            }
        }
    }
}

// -------------------------------------------------------------- ascending sets

/// A list of texts in strictly ascending order.
pub open spec fn ascending(s: Seq<Seq<char>>) -> bool {
    forall|i: int, j: int| 0 <= i < j < s.len() ==> lex_lt(#[trigger] s[i], #[trigger] s[j])
}

/// How many texts at the front of a list precede `k`.
pub open spec fn rank(s: Seq<Seq<char>>, k: Seq<char>) -> int
    decreases s.len(),
{
    if s.len() > 0 && lex_lt(s[0], k) {
        1 + rank(s.drop_first(), k)
    } else {
        0
    }
}

/// An ascending list with `k` in its place, unless it holds `k` already.
pub open spec fn with_text(s: Seq<Seq<char>>, k: Seq<char>) -> Seq<Seq<char>> {
    if s.contains(k) {
        s
    } else {
        s.insert(rank(s, k), k)
    }
}

/// The texts of a list, each once, in ascending order.
pub open spec fn sorted_set(s: Seq<Seq<char>>) -> Seq<Seq<char>>
    decreases s.len(),
{
    if s.len() == 0 {
        Seq::empty()
    } else {
        with_text(sorted_set(s.drop_last()), s.last())
    }
}

pub proof fn lemma_rank(s: Seq<Seq<char>>, k: Seq<char>, n: int)
    requires
        0 <= n <= s.len(),
        forall|j: int| 0 <= j < n ==> lex_lt(#[trigger] s[j], k),
        n < s.len() ==> !lex_lt(s[n], k),
    ensures
        rank(s, k) == n,
    decreases s.len(),
{
    if n > 0 {
        assert(lex_lt(s[0], k));
        assert forall|j: int| 0 <= j < n - 1 implies lex_lt(#[trigger] s.drop_first()[j], k) by {
            assert(s.drop_first()[j] == s[j + 1]);
        }
        lemma_rank(s.drop_first(), k, n - 1);
    }
}

pub proof fn lemma_rank_bounds(s: Seq<Seq<char>>, k: Seq<char>)
    ensures
        0 <= rank(s, k) <= s.len(),
        forall|j: int| 0 <= j < rank(s, k) ==> lex_lt(#[trigger] s[j], k),
        rank(s, k) < s.len() ==> !lex_lt(s[rank(s, k)], k),
    decreases s.len(),
{
    if s.len() > 0 && lex_lt(s[0], k) {
        lemma_rank_bounds(s.drop_first(), k);
        assert forall|j: int| 0 <= j < rank(s, k) implies lex_lt(#[trigger] s[j], k) by {
            if j > 0 {
                assert(s[j] == s.drop_first()[j - 1]);
            }
        }
    }
}

/// An ascending list holds `k` at its rank, or not at all.
pub proof fn lemma_rank_finds(s: Seq<Seq<char>>, k: Seq<char>)
    requires
        ascending(s),
    ensures
        s.contains(k) <==> rank(s, k) < s.len() && s[rank(s, k)] == k,
        forall|j: int| 0 <= j < s.len() && s[j] == k ==> j == rank(s, k),
{
    lemma_rank_bounds(s, k);
    let r = rank(s, k);
    assert forall|j: int| 0 <= j < s.len() && s[j] == k implies j == r by {
        law_lex_irreflexive(k);
        if j > r {
            assert(lex_lt(s[r], s[j]));
        }
    }
}

/// Every text at or after the rank of an absent `k` follows `k`.
pub proof fn lemma_rank_splits(s: Seq<Seq<char>>, k: Seq<char>)
    requires
        ascending(s),
        !s.contains(k),
    ensures
        0 <= rank(s, k) <= s.len(),
        forall|j: int| 0 <= j < rank(s, k) ==> lex_lt(#[trigger] s[j], k),
        forall|j: int| rank(s, k) <= j < s.len() ==> lex_lt(k, #[trigger] s[j]),
{
    lemma_rank_bounds(s, k);
    let r = rank(s, k);
    assert forall|j: int| r <= j < s.len() implies lex_lt(k, #[trigger] s[j]) by {
        law_lex_total(s[r], k);
        if j > r {
            assert(lex_lt(s[r], s[j]));
            law_lex_transitive(k, s[r], s[j]);
        }
    }
}

pub proof fn lemma_with_text(s: Seq<Seq<char>>, k: Seq<char>)
    requires
        ascending(s),
    ensures
        ascending(with_text(s, k)),
        forall|t: Seq<char>| with_text(s, k).contains(t) <==> s.contains(t) || t == k,
{
    if !s.contains(k) {
        lemma_rank_splits(s, k);
        let r = rank(s, k);
        let n = s.insert(r, k);
        assert forall|i: int, j: int| 0 <= i < j < n.len() implies lex_lt(
            #[trigger] n[i],
            #[trigger] n[j],
        ) by {
            let a = if i < r { i } else { i - 1 };
            let b = if j < r { j } else { j - 1 };
            if i != r && j != r {
                assert(lex_lt(s[a], s[b]));
            }
        }
        assert forall|t: Seq<char>| n.contains(t) <==> s.contains(t) || t == k by {
            if n.contains(t) && t != k {
                let i = choose|i: int| 0 <= i < n.len() && n[i] == t;
                if i < r {
                    assert(s[i] == t);
                } else {
                    assert(s[i - 1] == t);
                }
            }
            if s.contains(t) {
                let i = choose|i: int| 0 <= i < s.len() && s[i] == t;
                if i < r {
                    assert(n[i] == t);
                } else {
                    assert(n[i + 1] == t);
                }
            }
            if t == k {
                assert(n[r] == k);
            }
        }
    }
}

/// The sorted set of a list is strictly ascending and holds exactly the texts
/// of the list.
pub proof fn law_sorted_set(s: Seq<Seq<char>>)
    ensures
        ascending(sorted_set(s)),
        forall|t: Seq<char>| sorted_set(s).contains(t) <==> s.contains(t),
    decreases s.len(),
{
    if s.len() > 0 {
        let init = s.drop_last();
        law_sorted_set(init);
        lemma_with_text(sorted_set(init), s.last());
        assert forall|t: Seq<char>| sorted_set(s).contains(t) <==> s.contains(t) by {
            if init.contains(t) {
                let i = choose|i: int| 0 <= i < init.len() && init[i] == t;
                assert(s[i] == t);
            }
            if s.contains(t) && t != s.last() {
                let i = choose|i: int| 0 <= i < s.len() && s[i] == t;
                assert(init[i] == t);
            }
            if t == s.last() {
                assert(s[s.len() - 1] == t);
            }
        }
    }
}

/// Two strictly ascending lists with the same texts are the same.
pub proof fn law_ascending_unique(a: Seq<Seq<char>>, b: Seq<Seq<char>>)
    requires
        ascending(a),
        ascending(b),
        forall|t: Seq<char>| a.contains(t) <==> b.contains(t),
    ensures
        a == b,
    decreases a.len(),
{
    if a.len() == 0 {
        if b.len() > 0 {
            assert(b.contains(b[0]));
        }
        assert(a =~= b);
    } else {
        assert(a.contains(a[0]));
        assert(b.contains(a[0]));
        assert(b.contains(b[0]));
        assert(a.contains(b[0]));
        lemma_least(a, b[0]);
        lemma_least(b, a[0]);
        law_lex_irreflexive(a[0]);
        if a[0] != b[0] {
            law_lex_transitive(a[0], b[0], a[0]);
        }
        let x = a.drop_first();
        let y = b.drop_first();
        assert(ascending(x)) by {
            assert forall|i: int, j: int| 0 <= i < j < x.len() implies lex_lt(
                #[trigger] x[i],
                #[trigger] x[j],
            ) by {
                assert(lex_lt(a[i + 1], a[j + 1]));
            }
        }
        assert(ascending(y)) by {
            assert forall|i: int, j: int| 0 <= i < j < y.len() implies lex_lt(
                #[trigger] y[i],
                #[trigger] y[j],
            ) by {
                assert(lex_lt(b[i + 1], b[j + 1]));
            }
        }
        assert forall|t: Seq<char>| x.contains(t) <==> y.contains(t) by {
            lemma_tail_contains(a, t);
            lemma_tail_contains(b, t);
        }
        law_ascending_unique(x, y);
        assert(a =~= seq![a[0]] + x);
        assert(b =~= seq![b[0]] + y);
    }
}

proof fn lemma_least(s: Seq<Seq<char>>, t: Seq<char>)
    requires
        ascending(s),
        s.contains(t),
    ensures
        s[0] == t || lex_lt(s[0], t),
{
    let i = choose|i: int| 0 <= i < s.len() && s[i] == t;
    if i > 0 {
        assert(lex_lt(s[0], s[i]));
    }
}

proof fn lemma_tail_contains(s: Seq<Seq<char>>, t: Seq<char>)
    requires
        ascending(s),
        s.len() > 0,
    ensures
        s.drop_first().contains(t) <==> s.contains(t) && t != s[0],
{
    let x = s.drop_first();
    if x.contains(t) {
        let i = choose|i: int| 0 <= i < x.len() && x[i] == t;
        assert(s[i + 1] == t);
        assert(lex_lt(s[0], s[i + 1]));
        law_lex_irreflexive(t);
    }
    if s.contains(t) && t != s[0] {
        let i = choose|i: int| 0 <= i < s.len() && s[i] == t;
        assert(x[i - 1] == t);
    }
}

/// The rank of `k` in a list of texts.
fn place(v: &Vec<String>, k: &str) -> (r: usize)
    ensures
        r == rank(views(v@), k@),
        r <= v@.len(),
{
    let mut r: usize = 0;
    while r < v.len() && precedes(v[r].as_str(), k)
        invariant
            r <= v@.len(),
            forall|j: int| 0 <= j < r ==> lex_lt((#[trigger] v@[j])@, k@),
        decreases v@.len() - r,
    {
        r += 1;
    }
    proof {
        assert forall|j: int| 0 <= j < r implies lex_lt(#[trigger] views(v@)[j], k@) by {
            assert(lex_lt(v@[j]@, k@));
        }
        lemma_rank(views(v@), k@, r as int);
    }
    r
}

/// The texts of a list, each once, in ascending order.
pub fn ascending_set(v: &Vec<String>) -> (r: Vec<String>)
    ensures
        views(r@) == sorted_set(views(v@)),
{
    let mut r: Vec<String> = Vec::new();
    let ghost all = views(v@);
    assert(views(r@) =~= sorted_set(all.take(0)));
    for i in 0..v.len()
        invariant
            all == views(v@),
            views(r@) == sorted_set(all.take(i as int)),
    {
        let ghost so_far = views(r@);
        let p = place(&r, v[i].as_str());
        proof {
            law_sorted_set(all.take(i as int));
            lemma_rank_finds(so_far, all[i as int]);
            assert(all.take(i + 1).drop_last() =~= all.take(i as int));
            assert(all.take(i + 1).last() == all[i as int]);
            assert(all[i as int] == v@[i as int]@);
        }
        if p < r.len() && *r[p].as_str() == *v[i].as_str() {
            assert(so_far[p as int] == r@[p as int]@);
        } else {
            assert(p < r@.len() ==> so_far[p as int] == r@[p as int]@);
            let t = v[i].clone();
            r.insert(p, t);
            assert(views(r@) =~= so_far.insert(p as int, all[i as int]));
        }
    }
    assert(all.take(all.len() as int) =~= all);
    r
}

/// Appends a text to a list unless the list holds it already.
pub fn push_distinct(out: &mut Vec<String>, value: &str)
    ensures
        views(final(out)@) == with_distinct(views(old(out)@), value@),
{
    for i in 0..out.len()
        invariant
            out@ == old(out)@,
            forall|j: int| 0 <= j < i ==> (#[trigger] out@[j])@ != value@,
    {
        if *out[i].as_str() == *value {
            assert(views(out@)[i as int] == value@);
            return;
        }
    }
    assert forall|j: int| 0 <= j < views(out@).len() implies views(out@)[j] != value@ by {
        assert(out@[j]@ != value@);
    }
    let ghost so_far = out@;
    let t = value.to_string();
    out.push(t);
    proof {
        lemma_views_push(so_far, t);
    }
}

/// Appends the texts of another list that a list does not hold yet.
pub fn push_all_distinct(out: &mut Vec<String>, more: &Vec<String>)
    ensures
        views(final(out)@) == distinct_from(views(old(out)@), views(more@)),
{
    let ghost so_far = views(out@);
    let ghost all = views(more@);
    assert(all.take(0) =~= Seq::<Seq<char>>::empty());
    for i in 0..more.len()
        invariant
            all == views(more@),
            views(out@) == distinct_from(so_far, all.take(i as int)),
    {
        proof {
            assert(all.take(i + 1).drop_last() =~= all.take(i as int));
            assert(all.take(i + 1).last() == more@[i as int]@);
        }
        push_distinct(out, more[i].as_str());
    }
    assert(all.take(all.len() as int) =~= all);
}

/// The number of a key decides, and the text among equal numbers.
pub proof fn law_keys(a: (int, Seq<char>), b: (int, Seq<char>))
    ensures
        a.0 < b.0 ==> key_lt(a, b) && !key_lt(b, a),
        a.0 == b.0 ==> (key_lt(a, b) <==> lex_lt(a.1, b.1)),
{
}

/// Elements with equal keys keep the order in which they stood.
pub proof fn law_sort_is_stable(keys: Seq<(int, Seq<char>)>, p: Seq<int>, i: int, j: int)
    requires
        stable_order(keys, p),
        0 <= i < j < p.len(),
    ensures
        keys[p[i]] == keys[p[j]] ==> p[i] < p[j],
        keys[p[i]].0 <= keys[p[j]].0,
        keys[p[i]].0 == keys[p[j]].0 ==> !lex_lt(keys[p[j]].1, keys[p[i]].1),
{
    assert(comes_before(keys, p[i], p[j]));
    lemma_key_lt_total(keys[p[i]], keys[p[j]]);
    lemma_key_lt_total(keys[p[i]], keys[p[i]]);
}

/// The distinct elements of a list stand in the order of their first occurrence: an
/// element that is new comes last, and one that is there changes nothing.
pub proof fn law_distinct_keeps_first(s: Seq<Seq<char>>, t: Seq<char>)
    ensures
        distinct(Seq::<Seq<char>>::empty()) == Seq::<Seq<char>>::empty(),
        s.contains(t) ==> distinct(s.push(t)) == distinct(s),
        !s.contains(t) ==> distinct(s.push(t)) == distinct(s).push(t),
        distinct(s).contains(t) ==> with_distinct(distinct(s), t) == distinct(s),
        !distinct(s).contains(t) ==> with_distinct(distinct(s), t) == distinct(s).push(t),
{
    law_distinct(s);
    assert(s.push(t).drop_last() =~= s);
    assert(s.push(t).last() == t);
}

} // verus!
