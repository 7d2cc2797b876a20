//! The core selector: which physical cores to test, and in which order.
use vstd::prelude::*;
use std::collections::HashSet;
use vstd::relations::{sorted_by, total_ordering};
use vstd::seq_lib::{lemma_multiset_commutative, lemma_sorted_unique};

verus! {

/// The sequence `s` with every value after its first occurrence removed.
pub open spec fn dedup_spec(s: Seq<usize>) -> Seq<usize>
    decreases s.len(),
{
    if s.len() == 0 {
        Seq::empty()
    } else {
        let d = dedup_spec(s.drop_last());
        if d.contains(s.last()) {
            d
        } else {
            d.push(s.last())
        }
    }
}

/// Removes duplicates, keeping the first occurrence of each value.
pub fn dedup(v: &mut Vec<usize>)
    ensures
        final(v)@ == dedup_spec(old(v)@),
{
    let mut uniques: HashSet<usize> = HashSet::new();
    let mut kept: Vec<usize> = Vec::new();
    let n = v.len();
    for i in 0..n
        invariant
            n == v.len(),
            kept@ == dedup_spec(v@.take(i as int)),
            uniques@ == kept@.to_set(),
    {
        let e = v[i];
        assert(v@.take(i + 1).drop_last() == v@.take(i as int));
        let ghost before = kept@;
        if uniques.insert(e) {
            kept.push(e);
            assert(kept@.to_set() =~= before.to_set().insert(e)) by {
                assert forall|x: usize| kept@.contains(x) <==> before.contains(x) || x == e by {
                    if kept@.contains(x) && x != e {
                        let k = choose|k: int| 0 <= k < kept@.len() && kept@[k] == x;
                        assert(before[k] == x);
                    }
                    if x == e {
                        assert(kept@[before.len() as int] == e);
                    }
                    if before.contains(x) {
                        let k = choose|k: int| 0 <= k < before.len() && before[k] == x;
                        assert(kept@[k] == x);
                    }
                }
            }
        } else {
            assert(before.to_set().contains(e));
        }
    }
    assert(v@.take(n as int) == v@);
    *v = kept;
}


pub open spec fn usize_leq() -> spec_fn(usize, usize) -> bool {
    |a: usize, b: usize| a <= b
}

/// `s` in ascending order.
pub open spec fn sorted_spec(s: Seq<usize>) -> Seq<usize> {
    s.sort_by(usize_leq())
}

pub proof fn lemma_usize_leq_total()
    ensures
        total_ordering(usize_leq()),
{
}

/// A sorted rearrangement of `x` is the sorted `x`.
pub proof fn lemma_is_sorted_spec(x: Seq<usize>, y: Seq<usize>)
    requires
        sorted_by(y, usize_leq()),
        y.to_multiset() == x.to_multiset(),
    ensures
        y == sorted_spec(x),
{
    lemma_usize_leq_total();
    x.lemma_sort_by_ensures(usize_leq());
    lemma_sorted_unique(y, sorted_spec(x), usize_leq());
}

/// Relies on `slice::sort`: the same values, in ascending order.
#[verifier::external_body]
fn sort_ascending(v: &mut Vec<usize>)
    ensures
        sorted_by(final(v)@, usize_leq()),
        final(v)@.to_multiset() == old(v)@.to_multiset(),
{
    v.sort();
}

/// Takes the lowest and the highest remaining value in turn from the
/// ascending sequence `s`.
pub open spec fn alternate_spec(s: Seq<usize>) -> Seq<usize>
    decreases s.len(),
{
    if s.len() <= 1 {
        s
    } else {
        seq![s[0], s.last()] + alternate_spec(s.subrange(1, s.len() - 1))
    }
}

/// Sorts the cores, then orders them lowest, highest, second lowest,
/// second highest, and so on, so that neighbouring cores are not tested
/// one after the other.
pub fn alternate_cores(cores: Vec<usize>) -> (r: Vec<usize>)
    ensures
        r@ == alternate_spec(sorted_spec(cores@)),
{
    let ghost given = cores@;
    let mut cores = cores;
    sort_ascending(&mut cores);
    proof {
        lemma_is_sorted_spec(given, cores@);
    }
    let mut alt_cores: Vec<usize> = Vec::new();
    let mut lo: usize = 0;
    let mut hi: usize = cores.len();
    assert(cores@.subrange(0, hi as int) == cores@);
    assert(alt_cores@ + alternate_spec(cores@) =~= alternate_spec(cores@));
    while lo < hi
        invariant
            lo <= hi <= cores@.len(),
            alt_cores@ + alternate_spec(cores@.subrange(lo as int, hi as int)) == alternate_spec(
                cores@,
            ),
        decreases hi - lo,
    {
        let ghost rest = cores@.subrange(lo as int, hi as int);
        alt_cores.push(cores[lo]);
        if hi - lo >= 2 {
            alt_cores.push(cores[hi - 1]);
            assert(rest.subrange(1, rest.len() - 1) == cores@.subrange(lo + 1, hi - 1));
            assert(alt_cores@ + alternate_spec(cores@.subrange(lo + 1, hi - 1)) =~= alternate_spec(
                cores@,
            ));
            lo = lo + 1;
            hi = hi - 1;
        } else {
            assert(alt_cores@ + alternate_spec(cores@.subrange(hi as int, hi as int))
                =~= alternate_spec(cores@));
            lo = hi;
        }
    }
    proof {
        assert(cores@.subrange(lo as int, hi as int).len() == 0);
        assert(alt_cores@ =~= alternate_spec(given.sort_by(usize_leq())));
    }
    alt_cores
}

/// The cores of a processor with `n` physical cores.
pub open spec fn all_cores(n: usize) -> Seq<usize> {
    Seq::new(n as nat, |i: int| i as usize)
}

/// The cores that exist on a processor with `n` physical cores.
pub open spec fn existing_cores(s: Seq<usize>, n: usize) -> Seq<usize> {
    s.filter(|c: usize| c < n)
}

/// What the core selector makes of the requested cores on a processor with
/// `n` physical cores: all cores when none is requested; duplicates and
/// cores that do not exist dropped; the rest in alternated order.
pub open spec fn select_spec(requested: Seq<usize>, n: usize) -> Seq<usize> {
    let wanted = if requested.len() == 0 {
        all_cores(n)
    } else {
        requested
    };
    alternate_spec(sorted_spec(existing_cores(dedup_spec(wanted), n)))
}

/// The order in which to test the `requested` cores of a processor with
/// `physical_core_count` physical cores.
pub fn select_cores(requested: Vec<usize>, physical_core_count: usize) -> (r: Vec<usize>)
    ensures
        r@ == select_spec(requested@, physical_core_count),
{
    let mut cores = requested;
    if cores.len() == 0 {
        let mut i: usize = 0;
        while i < physical_core_count
            invariant
                i <= physical_core_count,
                cores@ == all_cores(i),
            decreases physical_core_count - i,
        {
            cores.push(i);
            assert(cores@ =~= all_cores((i + 1) as usize));
            i = i + 1;
        }
    }
    let ghost wanted = cores@;
    dedup(&mut cores);
    let mut available: Vec<usize> = Vec::new();
    let m = cores.len();
    for k in 0..m
        invariant
            m == cores.len(),
            available@ == existing_cores(cores@.take(k as int), physical_core_count),
    {
        let c = cores[k];
        assert(cores@.take(k + 1) == cores@.take(k as int).push(c));
        proof {
            cores@.take(k as int).lemma_filter_push(c, |c: usize| c < physical_core_count);
        }
        if c < physical_core_count {
            available.push(c);
        }
    }
    assert(cores@.take(m as int) == cores@);
    alternate_cores(available)
}

/// Position `2k` of the alternated `s` holds `s[k]`, position `2k + 1`
/// holds `s[len - 1 - k]`.
pub proof fn lemma_alternate_positions(s: Seq<usize>)
    ensures
        alternate_spec(s).len() == s.len(),
        forall|k: int| 0 <= 2 * k < s.len() ==> #[trigger] alternate_spec(s)[2 * k] == s[k],
        forall|k: int| 0 <= 2 * k + 1 < s.len() ==> #[trigger] alternate_spec(s)[2 * k + 1] == s[s.len() - 1 - k],
    decreases s.len(),
{
    if s.len() > 1 {
        let mid = s.subrange(1, s.len() - 1);
        lemma_alternate_positions(mid);
        let a = alternate_spec(s);
        assert(a == seq![s[0], s.last()] + alternate_spec(mid));
        assert forall|k: int| 0 <= 2 * k < s.len() implies #[trigger] a[2 * k] == s[k] by {
            if k > 0 {
                assert(a[2 * k] == alternate_spec(mid)[2 * (k - 1)]);
                assert(mid[k - 1] == s[k]);
            }
        }
        assert forall|k: int| 0 <= 2 * k + 1 < s.len() implies #[trigger] a[2 * k + 1] == s[s.len() - 1 - k] by {
            if k > 0 {
                assert(a[2 * k + 1] == alternate_spec(mid)[2 * (k - 1) + 1]);
                assert(mid[mid.len() - 1 - (k - 1)] == s[s.len() - 1 - k]);
            }
        }
    }
}

/// The alternated `s` holds the same values as `s`.
pub proof fn lemma_alternate_same_values(s: Seq<usize>, x: usize)
    ensures
        alternate_spec(s).contains(x) <==> s.contains(x),
{
    lemma_alternate_positions(s);
    let a = alternate_spec(s);
    if s.contains(x) {
        let m = choose|m: int| 0 <= m < s.len() && s[m] == x;
        if 2 * m < s.len() {
            assert(a[2 * m] == x);
        } else {
            let k = s.len() - 1 - m;
            assert(0 <= 2 * k + 1 < s.len());
            assert(a[2 * k + 1] == x);
        }
    }
    if a.contains(x) {
        let p = choose|p: int| 0 <= p < a.len() && a[p] == x;
        let k = p / 2;
        if p % 2 == 0 {
            assert(p == 2 * k);
            assert(s[k] == x);
        } else {
            assert(p == 2 * k + 1);
            assert(s[s.len() - 1 - k] == x);
        }
    }
}

/// The alternated `s` is a rearrangement of `s`.
pub proof fn lemma_alternate_rearranges(s: Seq<usize>)
    ensures
        alternate_spec(s).to_multiset() == s.to_multiset(),
    decreases s.len(),
{
    if s.len() > 1 {
        let mid = s.subrange(1, s.len() - 1);
        lemma_alternate_rearranges(mid);
        let ends = seq![s[0], s.last()];
        lemma_multiset_commutative(ends, alternate_spec(mid));
        lemma_multiset_commutative(ends, mid);
        assert(s == seq![s[0]] + mid + seq![s.last()]);
        lemma_multiset_commutative(seq![s[0]] + mid, seq![s.last()]);
        lemma_multiset_commutative(seq![s[0]], mid);
        lemma_multiset_commutative(seq![s[0]], seq![s.last()]);
        assert(ends == seq![s[0]] + seq![s.last()]);
        broadcast use vstd::multiset::group_multiset_axioms;
        assert(alternate_spec(s).to_multiset() =~= s.to_multiset());
    }
}

/// The core selector's order is a rearrangement of the distinct requested
/// cores (all cores when none is requested) that exist, with its cores at
/// even positions ascending and those at odd positions descending.
pub proof fn lemma_selection_order(requested: Seq<usize>, n: usize)
    ensures
        ({
            let wanted = if requested.len() == 0 {
                all_cores(n)
            } else {
                requested
            };
            let base = existing_cores(dedup_spec(wanted), n);
            let out = select_spec(requested, n);
            &&& out.to_multiset() == base.to_multiset()
            &&& out.len() == base.len()
            &&& forall|x: usize| out.contains(x) <==> #[trigger] base.contains(x)
            &&& forall|k: int| 0 <= 2 * k && 2 * k + 2 < out.len() ==> #[trigger] out[2 * k] <= out[2 * k + 2]
            &&& forall|k: int| 0 <= 2 * k + 1 && 2 * k + 3 < out.len() ==> #[trigger] out[2 * k + 1] >= out[2 * k + 3]
        }),
{
    broadcast use vstd::seq_lib::group_to_multiset_ensures;
    let wanted = if requested.len() == 0 {
        all_cores(n)
    } else {
        requested
    };
    let base = existing_cores(dedup_spec(wanted), n);
    let sorted = sorted_spec(base);
    let out = select_spec(requested, n);
    lemma_usize_leq_total();
    base.lemma_sort_by_ensures(usize_leq());
    lemma_alternate_positions(sorted);
    lemma_alternate_rearranges(sorted);
    assert(sorted.len() == base.len()) by {
        base.to_multiset_ensures();
        sorted.to_multiset_ensures();
    }
    assert forall|x: usize| out.contains(x) <==> #[trigger] base.contains(x) by {
        lemma_alternate_same_values(sorted, x);
        base.to_multiset_ensures();
        sorted.to_multiset_ensures();
        assert(sorted.to_multiset().count(x) == base.to_multiset().count(x));
    }
    assert forall|k: int| 0 <= 2 * k && 2 * k + 2 < out.len() implies #[trigger] out[2 * k] <= out[2 * k + 2] by {
        assert(out[2 * (k + 1)] == sorted[k + 1]);
        assert(usize_leq()(sorted[k], sorted[k + 1]));
    }
    assert forall|k: int| 0 <= 2 * k + 1 && 2 * k + 3 < out.len() implies #[trigger] out[2 * k + 1] >= out[2 * k + 3] by {
        assert(out[2 * (k + 1) + 1] == sorted[sorted.len() - 1 - (k + 1)]);
        assert(usize_leq()(sorted[sorted.len() - 2 - k], sorted[sorted.len() - 1 - k]));
    }
}


} // verus!
