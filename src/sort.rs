//! The comparator-driven in-place sort: keys are computed once, then a
//! partition sort (pivot = middle of the window) permutes keys and elements
//! in lock-step.
use vstd::multiset::Multiset;
use vstd::prelude::*;
use vstd::seq_lib::{
    lemma_multiset_commutative, to_multiset_build, to_multiset_contains, to_multiset_update,
};

verus! {

/// Failures of a sort.
#[derive(Clone, Copy, Debug, PartialEq, Eq)]
pub enum SortError<E> {
    /// The key function failed.
    Key(E),
    /// The ordering callback failed.
    Compare(E),
    /// The key function left elements in the store that stood in for the
    /// list while it was detached.
    ModifiedDuringSort,
}

/// Every answer of `lt` agrees with the relation `rel`: an answer `true`
/// on `(a, b)` means `rel(a, b)`, an answer `false` means `!rel(a, b)`.
pub open spec fn answers_as<K, E, L: Fn(K, K) -> Result<bool, E>>(lt: L, rel: spec_fn(K, K) -> bool) -> bool {
    &&& forall|a: K, b: K| #[trigger] lt.ensures((a, b), Ok::<bool, E>(true)) ==> rel(a, b)
    &&& forall|a: K, b: K| #[trigger] lt.ensures((a, b), Ok::<bool, E>(false)) ==> !rel(a, b)
}

/// `rel` is a strict order: asymmetric and transitive.
pub open spec fn strict_order<K>(rel: spec_fn(K, K) -> bool) -> bool {
    &&& forall|a: K, b: K| #[trigger] rel(a, b) ==> !rel(b, a)
    &&& forall|a: K, b: K, c: K| #[trigger] rel(a, b) && #[trigger] rel(b, c) ==> rel(a, c)
}

/// `lt` answers as the strict order `rel`.
pub open spec fn ordered_by<K, E, L: Fn(K, K) -> Result<bool, E>>(lt: L, rel: spec_fn(K, K) -> bool) -> bool {
    answers_as(lt, rel) && strict_order(rel)
}

/// `e` is a failure that `lt` reported for some pair of keys.
pub open spec fn raised<K, E, L: Fn(K, K) -> Result<bool, E>>(lt: L, e: E) -> bool {
    exists|a: K, b: K| lt.ensures((a, b), Err::<bool, E>(e))
}

/// No pair of `(key, element)` entries in `[lo, hi)` is out of order for
/// `rel`.
pub open spec fn sorted_between<K, T>(rel: spec_fn(K, K) -> bool, s: Seq<(K, T)>, lo: int, hi: int) -> bool {
    forall|i: int, j: int| lo <= i < j < hi ==> !rel(#[trigger] s[j].0, #[trigger] s[i].0)
}

/// Keys and elements side by side.
pub open spec fn zip<K, T>(ks: Seq<K>, vs: Seq<T>) -> Seq<(K, T)> {
    Seq::new(vs.len(), |i: int| (ks[i], vs[i]))
}

pub open spec fn range_ms<A>(s: Seq<A>, lo: int, hi: int) -> Multiset<A> {
    s.subrange(lo, hi).to_multiset()
}

proof fn lemma_swap_ms<A>(s: Seq<A>, a: int, b: int, lo: int, hi: int)
    requires
        lo <= a < hi,
        lo <= b < hi,
        hi <= s.len(),
        lo >= 0,
    ensures
        range_ms(s.update(a, s[b]).update(b, s[a]), lo, hi) == range_ms(s, lo, hi),
{
    let t = s.subrange(lo, hi);
    let t1 = t.update(a - lo, s[b]);
    let t2 = t1.update(b - lo, s[a]);
    assert(s.update(a, s[b]).update(b, s[a]).subrange(lo, hi) =~= t2);
    to_multiset_update(t, a - lo, s[b]);
    to_multiset_update(t1, b - lo, s[a]);
    to_multiset_contains(t, s[a]);
    to_multiset_contains(t, s[b]);
    assert(t.contains(s[a]) && t[a - lo] == s[a]);
    assert(t[b - lo] == s[b]);
    if a == b {
        assert(t2 =~= t);
    } else {
        assert(t1[b - lo] == s[b]);
        assert(t2.to_multiset() =~= t.to_multiset());
    }
}

proof fn lemma_ms_widen<A>(s: Seq<A>, t: Seq<A>, a: int, b: int, lo: int, hi: int)
    requires
        0 <= lo <= a <= b <= hi <= s.len(),
        s.len() == t.len(),
        forall|i: int| 0 <= i < s.len() && !(a <= i < b) ==> s[i] == t[i],
        range_ms(t, a, b) == range_ms(s, a, b),
    ensures
        range_ms(t, lo, hi) == range_ms(s, lo, hi),
{
    assert(s.subrange(lo, hi) =~= s.subrange(lo, a) + s.subrange(a, b) + s.subrange(b, hi));
    assert(t.subrange(lo, hi) =~= t.subrange(lo, a) + t.subrange(a, b) + t.subrange(b, hi));
    assert(t.subrange(lo, a) =~= s.subrange(lo, a));
    assert(t.subrange(b, hi) =~= s.subrange(b, hi));
    lemma_multiset_commutative(s.subrange(lo, a) + s.subrange(a, b), s.subrange(b, hi));
    lemma_multiset_commutative(s.subrange(lo, a), s.subrange(a, b));
    lemma_multiset_commutative(t.subrange(lo, a) + t.subrange(a, b), t.subrange(b, hi));
    lemma_multiset_commutative(t.subrange(lo, a), t.subrange(a, b));
}

proof fn lemma_ms_preserves<A>(s: Seq<A>, t: Seq<A>, lo: int, hi: int, p: spec_fn(A) -> bool)
    requires
        0 <= lo <= hi <= s.len(),
        hi <= t.len(),
        range_ms(t, lo, hi) == range_ms(s, lo, hi),
        forall|i: int| lo <= i < hi ==> p(#[trigger] s[i]),
    ensures
        forall|i: int| lo <= i < hi ==> p(#[trigger] t[i]),
{
    assert forall|i: int| lo <= i < hi implies p(#[trigger] t[i]) by {
        let ts = t.subrange(lo, hi);
        let ss = s.subrange(lo, hi);
        assert(ts[i - lo] == t[i]);
        to_multiset_contains(ts, t[i]);
        to_multiset_contains(ss, t[i]);
        let k = choose|k: int| 0 <= k < ss.len() && ss[k] == t[i];
        assert(s[lo + k] == ss[k]);
    }
}

fn swap_pair<K: Copy, T: Copy>(v: &mut Vec<(K, T)>, a: usize, b: usize)
    requires
        a < old(v)@.len(),
        b < old(v)@.len(),
    ensures
        final(v)@ == old(v)@.update(a as int, old(v)@[b as int]).update(b as int, old(v)@[a as int]),
{
    let x = v[a];
    let y = v[b];
    v[a] = y;
    v[b] = x;
}

/// Partitions `[lo, hi)` around its middle entry; returns where the pivot
/// ends: entries before it were answered "before the pivot", entries after
/// it were answered "not before".
fn partition<K: Copy, T: Copy, E, L: Fn(K, K) -> Result<bool, E>>(
    v: &mut Vec<(K, T)>,
    lo: usize,
    hi: usize,
    lt: &L,
) -> (r: Result<usize, E>)
    requires
        lo < hi <= old(v)@.len(),
        forall|a: K, b: K| lt.requires((a, b)),
    ensures
        final(v)@.len() == old(v)@.len(),
        forall|i: int| 0 <= i < old(v)@.len() && !(lo <= i < hi) ==> final(v)@[i] == old(v)@[i],
        range_ms(final(v)@, lo as int, hi as int) == range_ms(old(v)@, lo as int, hi as int),
        match r {
            Ok(p) => lo <= p < hi && final(v)@[p as int] == old(v)@[lo + (hi - lo) / 2] && (forall|i: int|
                lo <= i < p ==> lt.ensures(
                    (#[trigger] final(v)@[i].0, final(v)@[p as int].0),
                    Ok::<bool, E>(true),
                )) && (forall|i: int|
                p < i < hi ==> lt.ensures(
                    (#[trigger] final(v)@[i].0, final(v)@[p as int].0),
                    Ok::<bool, E>(false),
                )),
            Err(e) => raised(*lt, e),
        },
{
    let ghost orig = v@;
    let len = hi - lo;
    let pivot = lo + len / 2;
    let last = hi - 1;
    proof {
        lemma_swap_ms(v@, pivot as int, last as int, lo as int, hi as int);
    }
    swap_pair(v, pivot, last);
    let mut store: usize = lo;
    let mut i: usize = lo;
    while i < last
        invariant
            lo <= store <= i <= last,
            last == hi - 1,
            pivot == lo + (hi - lo) / 2,
            orig == old(v)@,
            v@[last as int] == orig[pivot as int],
            hi <= orig.len(),
            v@.len() == orig.len(),
            forall|j: int| 0 <= j < orig.len() && !(lo <= j < hi) ==> v@[j] == orig[j],
            range_ms(v@, lo as int, hi as int) == range_ms(orig, lo as int, hi as int),
            forall|j: int|
                lo <= j < store ==> lt.ensures((#[trigger] v@[j].0, v@[last as int].0), Ok::<bool, E>(true)),
            forall|j: int|
                store <= j < i ==> lt.ensures((#[trigger] v@[j].0, v@[last as int].0), Ok::<bool, E>(false)),
            forall|a: K, b: K| lt.requires((a, b)),
        decreases last - i,
    {
        let a = v[i].0;
        let b = v[last].0;
        let answer = lt(a, b);
        match answer {
            Ok(true) => {
                proof {
                    lemma_swap_ms(v@, i as int, store as int, lo as int, hi as int);
                }
                swap_pair(v, i, store);
                store += 1;
            },
            Ok(false) => {},
            Err(e) => {
                assert(lt.ensures((a, b), Err::<bool, E>(e)));
                return Err(e);
            },
        }
        i += 1;
    }
    proof {
        lemma_swap_ms(v@, store as int, last as int, lo as int, hi as int);
    }
    let ghost before = v@;
    swap_pair(v, store, last);
    assert forall|j: int| lo <= j < store implies lt.ensures(
        (#[trigger] v@[j].0, v@[store as int].0),
        Ok::<bool, E>(true),
    ) by {
        assert(v@[j] == before[j]);
    }
    assert forall|j: int| store < j < hi implies lt.ensures(
        (#[trigger] v@[j].0, v@[store as int].0),
        Ok::<bool, E>(false),
    ) by {
        if j == last {
            assert(v@[j] == before[store as int]);
        } else {
            assert(v@[j] == before[j]);
        }
    }
    Ok(store)
}

/// Sorts `[lo, hi)` by key with `lt`.
fn quicksort<K: Copy, T: Copy, E, L: Fn(K, K) -> Result<bool, E>>(
    v: &mut Vec<(K, T)>,
    lo: usize,
    hi: usize,
    lt: &L,
) -> (r: Result<(), E>)
    requires
        lo <= hi <= old(v)@.len(),
        forall|a: K, b: K| lt.requires((a, b)),
    ensures
        final(v)@.len() == old(v)@.len(),
        forall|i: int| 0 <= i < old(v)@.len() && !(lo <= i < hi) ==> final(v)@[i] == old(v)@[i],
        range_ms(final(v)@, lo as int, hi as int) == range_ms(old(v)@, lo as int, hi as int),
        r is Ok ==> forall|rel: spec_fn(K, K) -> bool|
            #[trigger] ordered_by(*lt, rel) ==> sorted_between(rel, final(v)@, lo as int, hi as int),
        r matches Err(e) ==> raised(*lt, e),
    decreases hi - lo,
{
    if hi - lo < 2 {
        return Ok(());
    }
    let ghost s0 = v@;
    let p = match partition(v, lo, hi, lt) {
        Ok(p) => p,
        Err(e) => {
            return Err(e);
        },
    };
    let ghost s1 = v@;
    let ghost piv = s1[p as int].0;
    let left = quicksort(v, lo, p, lt);
    let ghost s2 = v@;
    proof {
        lemma_ms_widen(s1, s2, lo as int, p as int, lo as int, hi as int);
    }
    if let Err(e) = left {
        return Err(e);
    }
    let right = quicksort(v, p + 1, hi, lt);
    let ghost s3 = v@;
    proof {
        lemma_ms_widen(s2, s3, (p + 1) as int, hi as int, lo as int, hi as int);
    }
    if let Err(e) = right {
        return Err(e);
    }
    proof {
        assert forall|rel: spec_fn(K, K) -> bool| #[trigger] ordered_by(*lt, rel) implies sorted_between(
            rel,
            s3,
            lo as int,
            hi as int,
        ) by {
            assert(sorted_between(rel, s2, lo as int, p as int));
            assert(sorted_between(rel, s3, (p + 1) as int, hi as int));
            let below = |x: (K, T)| rel(x.0, piv);
            let above = |x: (K, T)| !rel(x.0, piv);
            assert forall|i: int| lo <= i < p implies below(#[trigger] s1[i]) by {
                assert(lt.ensures((s1[i].0, s1[p as int].0), Ok::<bool, E>(true)));
            }
            lemma_ms_preserves(s1, s2, lo as int, p as int, below);
            assert forall|i: int| p + 1 <= i < hi implies above(#[trigger] s2[i]) by {
                assert(s2[i] == s1[i]);
                assert(lt.ensures((s1[i].0, s1[p as int].0), Ok::<bool, E>(false)));
            }
            lemma_ms_preserves(s2, s3, (p + 1) as int, hi as int, above);
            assert(s3[p as int] == s1[p as int]);
            assert forall|i: int, j: int| lo <= i < j < hi implies !rel(
                #[trigger] s3[j].0,
                #[trigger] s3[i].0,
            ) by {
                if j < p {
                    assert(s3[i] == s2[i] && s3[j] == s2[j]);
                } else if i > p {
                } else if i < p {
                    assert(s3[i] == s2[i]);
                    assert(below(s2[i]));
                    if j == p {
                    } else {
                        assert(above(s3[j]));
                        assert(rel(s3[i].0, piv));
                        assert(!rel(s3[j].0, piv));
                    }
                } else {
                    assert(above(s3[j]));
                }
            }
        }
    }
    Ok(())
}

/// Every key in `ks` orders no earlier than the key before it (or no later,
/// when `reverse`).
pub open spec fn sorted_keys<K>(rel: spec_fn(K, K) -> bool, ks: Seq<K>, reverse: bool) -> bool {
    forall|i: int, j: int|
        0 <= i < j < ks.len() ==> if reverse {
            !rel(#[trigger] ks[i], #[trigger] ks[j])
        } else {
            !rel(ks[j], ks[i])
        }
}

/// `t` is a rearrangement of `s` that carries the keys `ks0` along, and the
/// rearranged keys are sorted for every strict order that `lt` answers as.
pub open spec fn sort_outcome<K, T, E, L: Fn(K, K) -> Result<bool, E>>(
    lt: L,
    ks0: Seq<K>,
    s: Seq<T>,
    t: Seq<T>,
    reverse: bool,
) -> bool {
    exists|ks: Seq<K>|
        #![trigger zip(ks, t)]
        ks.len() == t.len() && zip(ks, t).to_multiset() == zip(ks0, s).to_multiset() && (
        forall|rel: spec_fn(K, K) -> bool| #[trigger] ordered_by(lt, rel) ==> sorted_keys(rel, ks, reverse))
}

/// Sorts `values` by the parallel `keys` with `lt`, then reverses the result
/// when `reverse`.
pub fn do_sort<K: Copy, T: Copy, E, L: Fn(K, K) -> Result<bool, E>>(
    values: &mut Vec<T>,
    keys: Vec<K>,
    reverse: bool,
    lt: &L,
) -> (r: Result<(), E>)
    requires
        keys@.len() == old(values)@.len(),
        forall|a: K, b: K| lt.requires((a, b)),
    ensures
        r is Ok ==> sort_outcome(*lt, keys@, old(values)@, final(values)@, reverse),
        r matches Err(e) ==> raised(*lt, e),
{
    let ghost orig = values@;
    let n = values.len();
    let mut pairs: Vec<(K, T)> = Vec::new();
    let mut i: usize = 0;
    while i < n
        invariant
            n == orig.len(),
            n == keys@.len(),
            values@ == orig,
            i <= n,
            pairs@ == zip(keys@, orig).subrange(0, i as int),
        decreases n - i,
    {
        pairs.push((keys[i], values[i]));
        i += 1;
        assert(pairs@ =~= zip(keys@, orig).subrange(0, i as int));
    }
    assert(pairs@ =~= zip(keys@, orig));
    match quicksort(&mut pairs, 0, n, lt) {
        Ok(()) => {},
        Err(e) => {
            return Err(e);
        },
    }
    assert(pairs@.subrange(0, n as int) =~= pairs@);
    assert(zip(keys@, orig).subrange(0, n as int) =~= zip(keys@, orig));
    let ghost sorted = pairs@;
    if reverse {
        let mut rev: Vec<(K, T)> = Vec::new();
        let mut j: usize = 0;
        while j < n
            invariant
                n == sorted.len(),
                pairs@ == sorted,
                j <= n,
                rev@ == sorted.reverse().subrange(0, j as int),
            decreases n - j,
        {
            rev.push(pairs[n - 1 - j]);
            j += 1;
            assert(rev@ =~= sorted.reverse().subrange(0, j as int));
        }
        assert(rev@ =~= sorted.reverse());
        proof {
            sorted.lemma_reverse_to_multiset();
        }
        pairs = rev;
    }
    let mut k: usize = 0;
    while k < n
        invariant
            n == pairs@.len(),
            values@.len() == n,
            k <= n,
            forall|j: int| 0 <= j < k ==> values@[j] == pairs@[j].1,
        decreases n - k,
    {
        values[k] = pairs[k].1;
        k += 1;
    }
    let ghost ks = Seq::new(n as nat, |j: int| pairs@[j].0);
    assert(zip(ks, values@) =~= pairs@);
    proof {
        assert forall|rel: spec_fn(K, K) -> bool| #[trigger] ordered_by(*lt, rel) implies sorted_keys(
            rel,
            ks,
            reverse,
        ) by {
            assert(sorted_between(rel, sorted, 0, n as int));
            assert forall|a: int, b: int| 0 <= a < b < ks.len() implies if reverse {
                !rel(#[trigger] ks[a], #[trigger] ks[b])
            } else {
                !rel(ks[b], ks[a])
            } by {
                if reverse {
                    assert(pairs@[a] == sorted[n - 1 - a]);
                    assert(pairs@[b] == sorted[n - 1 - b]);
                    assert(!rel(sorted[n - 1 - a].0, sorted[n - 1 - b].0));
                } else {
                    assert(!rel(sorted[b].0, sorted[a].0));
                }
            }
        }
    }
    Ok(())
}

/// No element of `t` orders before the one preceding it (after it, when
/// `reverse`).
pub open spec fn sorted_by<T>(rel: spec_fn(T, T) -> bool, t: Seq<T>, reverse: bool) -> bool {
    sorted_keys(rel, t, reverse)
}

proof fn lemma_diag_count<A>(a: Seq<A>, x: A)
    ensures
        zip(a, a).to_multiset().count((x, x)) == a.to_multiset().count(x),
    decreases a.len(),
{
    broadcast use vstd::multiset::group_multiset_axioms;
    broadcast use vstd::seq_lib::group_to_multiset_ensures;

    if a.len() > 0 {
        let b = a.drop_last();
        let y = a.last();
        lemma_diag_count(b, x);
        assert(zip(a, a) =~= zip(b, b).push((y, y)));
        assert(a =~= b.push(y));
        to_multiset_build(zip(b, b), (y, y));
        to_multiset_build(b, y);
        if x == y {
            assert(zip(a, a).to_multiset().count((x, x)) == zip(b, b).to_multiset().count((x, x)) + 1);
        } else {
            assert((x, x) != (y, y));
            assert(zip(a, a).to_multiset().count((x, x)) == zip(b, b).to_multiset().count((x, x)));
        }
    } else {
        assert(zip(a, a) =~= Seq::<(A, A)>::empty());
        assert(a =~= Seq::<A>::empty());
    }
}

/// Sorting elements by themselves: whatever keys `sort_outcome` speaks of
/// are the elements, so the result is a rearrangement of the input and,
/// for every strict order that `lt` answers as, sorted.
pub proof fn lemma_self_keyed<T, E, L: Fn(T, T) -> Result<bool, E>>(
    lt: L,
    s: Seq<T>,
    t: Seq<T>,
    reverse: bool,
)
    requires
        sort_outcome(lt, s, s, t, reverse),
    ensures
        t.to_multiset() == s.to_multiset(),
        forall|rel: spec_fn(T, T) -> bool| #[trigger] ordered_by(lt, rel) ==> sorted_by(rel, t, reverse),
{
    let ks = choose|ks: Seq<T>|
        #![trigger zip(ks, t)]
        ks.len() == t.len() && zip(ks, t).to_multiset() == zip(s, s).to_multiset() && (
        forall|rel: spec_fn(T, T) -> bool| #[trigger] ordered_by(lt, rel) ==> sorted_keys(rel, ks, reverse));
    assert forall|i: int| 0 <= i < t.len() implies ks[i] == t[i] by {
        let z = zip(ks, t);
        assert(z[i] == (ks[i], t[i]));
        to_multiset_contains(z, z[i]);
        to_multiset_contains(zip(s, s), z[i]);
        let j = choose|j: int| 0 <= j < zip(s, s).len() && zip(s, s)[j] == z[i];
        assert(zip(s, s)[j] == (s[j], s[j]));
    }
    assert(ks =~= t);
    assert forall|x: T| #[trigger] t.to_multiset().count(x) == s.to_multiset().count(x) by {
        lemma_diag_count(t, x);
        lemma_diag_count(s, x);
    }
    assert(t.to_multiset() =~= s.to_multiset());
}

} // verus!
