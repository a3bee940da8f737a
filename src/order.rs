use vstd::prelude::*;
use rayon::slice::ParallelSliceMut;

verus! {

/// `s` is ordered by `key`, largest first.
pub open spec fn sorted_by<A>(s: Seq<A>, key: spec_fn(A) -> u64) -> bool {
    forall|i: int, j: int| 0 <= i < j < s.len() ==> key(s[i]) >= key(s[j])
}

/// The items of `s` whose key is `k`, in order.
pub open spec fn keyed<A>(s: Seq<A>, key: spec_fn(A) -> u64, k: u64) -> Seq<A> {
    s.filter(|x: A| key(x) == k)
}

/// `r` is `s` ordered by `key`, largest first, with items of equal key in
/// their order in `s`.
pub open spec fn stable_desc<A>(r: Seq<A>, s: Seq<A>, key: spec_fn(A) -> u64) -> bool {
    &&& r.len() == s.len()
    &&& sorted_by(r, key)
    &&& forall|k: u64| #[trigger] keyed(r, key, k) == keyed(s, key, k)
}

/// The first field of a pair.
pub open spec fn first_of() -> spec_fn((u64, usize)) -> u64 {
    |p: (u64, usize)| p.0
}

/// The items of `items` at the positions `r`.
pub open spec fn pick<B>(items: Seq<B>, r: Seq<usize>) -> Seq<B> {
    r.map_values(|i: usize| items[i as int])
}

/// Each position of `r` with its key.
pub open spec fn tagged(keys: Seq<u64>, r: Seq<usize>) -> Seq<(u64, usize)> {
    r.map_values(|i: usize| (keys[i as int], i))
}

/// Each position of `keys`, in order, with its key.
pub open spec fn all_tagged(keys: Seq<u64>) -> Seq<(u64, usize)> {
    Seq::new(keys.len(), |i: int| (keys[i], i as usize))
}

/// `r` lists the positions of `keys` ordered by key, largest first, with
/// equal keys in increasing position.
pub open spec fn is_key_order(keys: Seq<u64>, r: Seq<usize>) -> bool {
    &&& forall|j: int| 0 <= j < r.len() ==> (#[trigger] r[j]) < keys.len()
    &&& stable_desc(tagged(keys, r), all_tagged(keys), first_of())
}

pub proof fn lemma_keyed_push<A>(s: Seq<A>, x: A, key: spec_fn(A) -> u64, k: u64)
    ensures
        keyed(s.push(x), key, k) == (if key(x) == k {
            keyed(s, key, k).push(x)
        } else {
            keyed(s, key, k)
        }),
{
    reveal(Seq::filter);
    assert(s.push(x).drop_last() =~= s);
}

/// What a key filter keeps comes from `s` and has that key.
pub proof fn lemma_keyed_member<A>(s: Seq<A>, key: spec_fn(A) -> u64, k: u64, j: int)
    requires
        0 <= j < keyed(s, key, k).len(),
    ensures
        s.contains(keyed(s, key, k)[j]),
        key(keyed(s, key, k)[j]) == k,
    decreases s.len(),
{
    if s.len() == 0 {
        reveal(Seq::filter);
    } else {
        let t = s.drop_last();
        assert(t.push(s.last()) =~= s);
        lemma_keyed_push(t, s.last(), key, k);
        if j < keyed(t, key, k).len() {
            lemma_keyed_member(t, key, k, j);
            let w = choose|w: int| 0 <= w < t.len() && t[w] == keyed(t, key, k)[j];
            assert(s[w] == t[w]);
        } else {
            assert(s[s.len() - 1] == s.last());
        }
    }
}

/// Every item of `s` is kept by the filter for its own key.
pub proof fn lemma_in_keyed<A>(s: Seq<A>, key: spec_fn(A) -> u64, i: int)
    requires
        0 <= i < s.len(),
    ensures
        keyed(s, key, key(s[i])).contains(s[i]),
    decreases s.len(),
{
    let t = s.drop_last();
    assert(t.push(s.last()) =~= s);
    lemma_keyed_push(t, s.last(), key, key(s[i]));
    if i < s.len() - 1 {
        assert(s[i] == t[i]);
        lemma_in_keyed(t, key, i);
        let kt = keyed(t, key, key(s[i]));
        let w = choose|w: int| 0 <= w < kt.len() && #[trigger] kt[w] == s[i];
        assert(keyed(s, key, key(s[i]))[w] == s[i]);
    } else {
        let f = keyed(s, key, key(s[i]));
        assert(f[f.len() - 1] == s[i]);
    }
}

/// Mapping commutes with a key filter when the map keeps keys.
pub proof fn lemma_keyed_map<A, B>(
    s: Seq<A>,
    g: spec_fn(A) -> B,
    ka: spec_fn(A) -> u64,
    kb: spec_fn(B) -> u64,
    k: u64,
)
    requires
        forall|i: int| 0 <= i < s.len() ==> kb(g(#[trigger] s[i])) == ka(s[i]),
    ensures
        keyed(s.map_values(g), kb, k) == keyed(s, ka, k).map_values(g),
    decreases s.len(),
{
    if s.len() == 0 {
        reveal(Seq::filter);
        assert(keyed(s.map_values(g), kb, k) =~= keyed(s, ka, k).map_values(g));
    } else {
        let t = s.drop_last();
        assert(t.push(s.last()) =~= s);
        assert(t.map_values(g).push(g(s.last())) =~= s.map_values(g));
        assert forall|i: int| 0 <= i < t.len() implies kb(g(#[trigger] t[i])) == ka(t[i]) by {
            assert(t[i] == s[i]);
        }
        lemma_keyed_map(t, g, ka, kb, k);
        lemma_keyed_push(t, s.last(), ka, k);
        lemma_keyed_push(t.map_values(g), g(s.last()), kb, k);
        assert(kb(g(s[s.len() - 1])) == ka(s[s.len() - 1]));
        if ka(s.last()) == k {
            assert(keyed(t, ka, k).push(s.last()).map_values(g) =~= keyed(t, ka, k).map_values(
                g,
            ).push(g(s.last())));
        }
    }
}

/// Two orderings of the same items by the same key, both keeping equal keys
/// in the order they have in `s`, are the same sequence.
pub proof fn lemma_stable_unique<A>(r1: Seq<A>, r2: Seq<A>, s: Seq<A>, key: spec_fn(A) -> u64)
    requires
        stable_desc(r1, s, key),
        stable_desc(r2, s, key),
    ensures
        r1 == r2,
{
    assert forall|k: u64| #[trigger] keyed(r1, key, k) == keyed(r2, key, k) by {
        assert(keyed(r1, key, k) == keyed(s, key, k));
        assert(keyed(r2, key, k) == keyed(s, key, k));
    }
    lemma_sorted_unique(r1, r2, key);
}

proof fn lemma_sorted_unique<A>(r1: Seq<A>, r2: Seq<A>, key: spec_fn(A) -> u64)
    requires
        sorted_by(r1, key),
        sorted_by(r2, key),
        forall|k: u64| #[trigger] keyed(r1, key, k) == keyed(r2, key, k),
    ensures
        r1 == r2,
    decreases r1.len() + r2.len(),
{
    if r1.len() == 0 && r2.len() == 0 {
        assert(r1 =~= r2);
    } else if r1.len() == 0 || r2.len() == 0 {
        let (e, f) = if r1.len() == 0 { (r1, r2) } else { (r2, r1) };
        lemma_in_keyed(f, key, f.len() - 1);
        let k = key(f[f.len() - 1]);
        assert(keyed(e, key, k).len() == 0) by {
            reveal(Seq::filter);
        }
        assert(keyed(f, key, k).len() > 0);
    } else {
        let x1 = r1.last();
        let x2 = r2.last();
        let t1 = r1.drop_last();
        let t2 = r2.drop_last();
        assert(t1.push(x1) =~= r1);
        assert(t2.push(x2) =~= r2);
        // the last items carry the smallest key of each side, and the sides
        // hold the same keys
        lemma_in_keyed(r2, key, r2.len() - 1);
        assert(keyed(r1, key, key(x2)).contains(x2));
        let f1 = keyed(r1, key, key(x2));
        let w1 = choose|w: int| 0 <= w < f1.len() && #[trigger] f1[w] == x2;
        lemma_keyed_member(r1, key, key(x2), w1);
        let a = choose|a: int| 0 <= a < r1.len() && r1[a] == x2;
        assert(key(r1[a]) >= key(r1[r1.len() - 1]));
        lemma_in_keyed(r1, key, r1.len() - 1);
        assert(keyed(r2, key, key(x1)).contains(x1));
        let f2 = keyed(r2, key, key(x1));
        let w2 = choose|w: int| 0 <= w < f2.len() && #[trigger] f2[w] == x1;
        lemma_keyed_member(r2, key, key(x1), w2);
        let c = choose|c: int| 0 <= c < r2.len() && r2[c] == x1;
        assert(key(r2[c]) >= key(r2[r2.len() - 1]));
        let kk = key(x1);
        assert(key(x2) == kk);
        lemma_keyed_push(t1, x1, key, kk);
        lemma_keyed_push(t2, x2, key, kk);
        assert(keyed(r1, key, kk) == keyed(r2, key, kk));
        assert(keyed(t1, key, kk).push(x1).last() == x1);
        assert(x1 == x2);
        assert(keyed(t1, key, kk) == keyed(r1, key, kk).drop_last());
        assert(keyed(t2, key, kk) == keyed(r2, key, kk).drop_last());
        assert forall|k: u64| #[trigger] keyed(t1, key, k) == keyed(t2, key, k) by {
            lemma_keyed_push(t1, x1, key, k);
            lemma_keyed_push(t2, x2, key, k);
            assert(keyed(r1, key, k) == keyed(r2, key, k));
            if k == kk {
                assert(keyed(t1, key, kk) == keyed(r1, key, kk).drop_last());
            }
        }
        assert(sorted_by(t1, key)) by {
            assert forall|i: int, j: int| 0 <= i < j < t1.len() implies key(t1[i]) >= key(t1[j]) by {
                assert(t1[i] == r1[i] && t1[j] == r1[j]);
            }
        }
        assert(sorted_by(t2, key)) by {
            assert forall|i: int, j: int| 0 <= i < j < t2.len() implies key(t2[i]) >= key(t2[j]) by {
                assert(t2[i] == r2[i] && t2[j] == r2[j]);
            }
        }
        lemma_sorted_unique(t1, t2, key);
    }
}

/// An ordering of positions by key carries over to the items at those positions.
pub proof fn lemma_reorder<B>(items: Seq<B>, keys: Seq<u64>, key: spec_fn(B) -> u64, r: Seq<usize>)
    requires
        items.len() == keys.len(),
        keys.len() <= usize::MAX,
        forall|i: int| 0 <= i < items.len() ==> key(#[trigger] items[i]) == keys[i],
        is_key_order(keys, r),
    ensures
        stable_desc(pick(items, r), items, key),
        pick(items, r).len() == r.len(),
{
    let g = |p: (u64, usize)| items[p.1 as int];
    let tr = tagged(keys, r);
    let ta = all_tagged(keys);
    assert(pick(items, r) =~= tr.map_values(g));
    assert(items =~= ta.map_values(g));
    assert forall|i: int| 0 <= i < tr.len() implies key(g(#[trigger] tr[i])) == first_of()(tr[i]) by {
        assert(r[i] < keys.len());
    }
    assert forall|i: int| 0 <= i < ta.len() implies key(g(#[trigger] ta[i])) == first_of()(ta[i]) by {}
    assert forall|k: u64| #[trigger] keyed(pick(items, r), key, k) == keyed(items, key, k) by {
        lemma_keyed_map(tr, g, first_of(), key, k);
        lemma_keyed_map(ta, g, first_of(), key, k);
        assert(keyed(tr, first_of(), k) == keyed(ta, first_of(), k));
    }
    assert forall|i: int, j: int| 0 <= i < j < pick(items, r).len() implies key(pick(items, r)[i])
        >= key(pick(items, r)[j]) by {
        assert(r[i] < keys.len() && r[j] < keys.len());
        assert(first_of()(tr[i]) >= first_of()(tr[j]));
    }
}

/// Relies on rayon's `par_sort_by`, a stable sort: afterwards the pairs are
/// ordered by their first field, largest first, and pairs with equal first
/// fields keep their relative order.
#[verifier::external_body]
fn par_sort_pairs_desc(v: &mut Vec<(u64, usize)>)
    ensures
        final(v)@.len() == old(v)@.len(),
        sorted_by(final(v)@, first_of()),
        forall|k: u64| #[trigger] keyed(final(v)@, first_of(), k) == keyed(old(v)@, first_of(), k),
{
    v.par_sort_by(|a, b| b.0.cmp(&a.0));
}

/// The positions of `keys` ordered by key, largest first; equal keys keep
/// their order.
pub fn order_by_key_desc(keys: &Vec<u64>) -> (r: Vec<usize>)
    ensures
        is_key_order(keys@, r@),
        r@.len() == keys@.len(),
{
    let mut pairs: Vec<(u64, usize)> = Vec::new();
    let mut i: usize = 0;
    while i < keys.len()
        invariant
            i <= keys@.len(),
            pairs@ == all_tagged(keys@).subrange(0, i as int),
        decreases keys@.len() - i,
    {
        pairs.push((keys[i], i));
        i = i + 1;
        assert(pairs@ =~= all_tagged(keys@).subrange(0, i as int));
    }
    assert(pairs@ =~= all_tagged(keys@));
    let ghost before = pairs@;
    par_sort_pairs_desc(&mut pairs);
    let ghost sorted = pairs@;
    proof {
        assert forall|j: int| 0 <= j < sorted.len() implies (#[trigger] sorted[j]).1 < keys@.len()
            && sorted[j].0 == keys@[sorted[j].1 as int] by {
            lemma_in_keyed(sorted, first_of(), j);
            let f = keyed(sorted, first_of(), sorted[j].0);
            let w = choose|w: int| 0 <= w < f.len() && #[trigger] f[w] == sorted[j];
            assert(keyed(before, first_of(), sorted[j].0) == f);
            lemma_keyed_member(before, first_of(), sorted[j].0, w);
        }
    }
    let mut r: Vec<usize> = Vec::new();
    let mut j: usize = 0;
    while j < pairs.len()
        invariant
            pairs@ == sorted,
            j <= sorted.len(),
            r@.len() == j,
            forall|m: int| 0 <= m < j ==> #[trigger] r@[m] == sorted[m].1,
        decreases sorted.len() - j,
    {
        r.push(pairs[j].1);
        j = j + 1;
    }
    proof {
        assert(tagged(keys@, r@) =~= sorted);
    }
    r
}

/// How many times `x` occurs in `s`.
pub open spec fn occurrences<A>(s: Seq<A>, x: A) -> nat
    decreases s.len(),
{
    if s.len() == 0 {
        0
    } else {
        occurrences(s.drop_last(), x) + (if s.last() == x {
            1nat
        } else {
            0nat
        })
    }
}

/// A key filter keeps every occurrence of an item with that key.
pub proof fn lemma_keyed_occurrences<A>(s: Seq<A>, key: spec_fn(A) -> u64, x: A)
    ensures
        occurrences(keyed(s, key, key(x)), x) == occurrences(s, x),
    decreases s.len(),
{
    if s.len() == 0 {
        reveal(Seq::filter);
    } else {
        let t = s.drop_last();
        assert(t.push(s.last()) =~= s);
        lemma_keyed_push(t, s.last(), key, key(x));
        lemma_keyed_occurrences(t, key, x);
        let f = keyed(t, key, key(x));
        assert(f.push(s.last()).drop_last() =~= f);
    }
}

/// An item at two positions occurs at least twice.
pub proof fn lemma_two_positions<A>(s: Seq<A>, i: int, j: int)
    requires
        0 <= i < j < s.len(),
        s[i] == s[j],
    ensures
        occurrences(s, s[i]) >= 2,
    decreases s.len(),
{
    let t = s.drop_last();
    if j < s.len() - 1 {
        assert(t[i] == s[i] && t[j] == s[j]);
        lemma_two_positions(t, i, j);
    } else {
        assert(t[i] == s[i]);
        lemma_one_position(t, i);
    }
}

/// An item at some position occurs at least once.
pub proof fn lemma_one_position<A>(s: Seq<A>, i: int)
    requires
        0 <= i < s.len(),
    ensures
        occurrences(s, s[i]) >= 1,
    decreases s.len(),
{
    let t = s.drop_last();
    if i < s.len() - 1 {
        assert(t[i] == s[i]);
        lemma_one_position(t, i);
    }
}

/// In a sequence without repeated items, each item occurs at most once.
pub proof fn lemma_distinct_occurrences<A>(s: Seq<A>, x: A)
    requires
        forall|i: int, j: int| 0 <= i < j < s.len() ==> s[i] != s[j],
    ensures
        occurrences(s, x) <= 1,
    decreases s.len(),
{
    if s.len() > 0 {
        let t = s.drop_last();
        assert forall|i: int, j: int| 0 <= i < j < t.len() implies t[i] != t[j] by {
            assert(t[i] == s[i] && t[j] == s[j]);
        }
        lemma_distinct_occurrences(t, x);
        if s.last() == x && occurrences(t, x) >= 1 {
            lemma_occurs_somewhere(t, x);
            let k = choose|k: int| 0 <= k < t.len() && t[k] == x;
            assert(s[k] == s[s.len() - 1]);
        }
    }
}

proof fn lemma_occurs_somewhere<A>(s: Seq<A>, x: A)
    requires
        occurrences(s, x) >= 1,
    ensures
        exists|k: int| 0 <= k < s.len() && s[k] == x,
    decreases s.len(),
{
    let t = s.drop_last();
    if s.last() == x {
        assert(s[s.len() - 1] == x);
    } else {
        lemma_occurs_somewhere(t, x);
        let k = choose|k: int| 0 <= k < t.len() && t[k] == x;
        assert(s[k] == x);
    }
}

/// A stable ordering of a sequence without repeated items has none either.
pub proof fn lemma_stable_distinct<A>(r: Seq<A>, s: Seq<A>, key: spec_fn(A) -> u64)
    requires
        stable_desc(r, s, key),
        forall|i: int, j: int| 0 <= i < j < s.len() ==> s[i] != s[j],
    ensures
        forall|i: int, j: int| 0 <= i < j < r.len() ==> r[i] != r[j],
{
    assert forall|i: int, j: int| 0 <= i < j < r.len() implies r[i] != r[j] by {
        if r[i] == r[j] {
            let x = r[i];
            lemma_two_positions(r, i, j);
            lemma_keyed_occurrences(r, key, x);
            lemma_keyed_occurrences(s, key, x);
            assert(keyed(r, key, key(x)) == keyed(s, key, key(x)));
            lemma_distinct_occurrences(s, x);
        }
    }
}

/// Every item of `s` appears in a stable ordering `r` of it, and every item
/// of `r` comes from `s`.
pub proof fn lemma_stable_same_items<A>(r: Seq<A>, s: Seq<A>, key: spec_fn(A) -> u64)
    requires
        stable_desc(r, s, key),
    ensures
        forall|m: int| 0 <= m < s.len() ==> r.contains(#[trigger] s[m]),
        forall|i: int| 0 <= i < r.len() ==> s.contains(#[trigger] r[i]),
{
    assert forall|m: int| 0 <= m < s.len() implies r.contains(#[trigger] s[m]) by {
        lemma_in_keyed(s, key, m);
        let f = keyed(s, key, key(s[m]));
        let w = choose|w: int| 0 <= w < f.len() && #[trigger] f[w] == s[m];
        assert(keyed(r, key, key(s[m])) == f);
        lemma_keyed_member(r, key, key(s[m]), w);
    }
    assert forall|i: int| 0 <= i < r.len() implies s.contains(#[trigger] r[i]) by {
        lemma_in_keyed(r, key, i);
        let f = keyed(r, key, key(r[i]));
        let w = choose|w: int| 0 <= w < f.len() && #[trigger] f[w] == r[i];
        assert(keyed(s, key, key(r[i])) == f);
        lemma_keyed_member(s, key, key(r[i]), w);
    }
}

} // verus!
