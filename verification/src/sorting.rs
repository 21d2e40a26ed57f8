use vstd::prelude::*;

use vstd::seq_lib::lemma_multiset_commutative;

verus! {

/// Whether a sequence of die values is in ascending order.
pub open spec fn sorted_asc(s: Seq<usize>) -> bool {
    forall|i: int, j: int| 0 <= i <= j < s.len() ==> s[i] <= s[j]
}

/// Whether a sequence of die values is in descending order.
pub open spec fn sorted_desc(s: Seq<usize>) -> bool {
    forall|i: int, j: int| 0 <= i <= j < s.len() ==> s[i] >= s[j]
}

/// Inserting a value anywhere in a sequence adds it, and nothing else, to the
/// sequence's multiset.
pub proof fn lemma_to_multiset_insert(s: Seq<usize>, i: int, x: usize)
    requires
        0 <= i <= s.len(),
    ensures
        s.insert(i, x).to_multiset() == s.to_multiset().insert(x),
{
    broadcast use vstd::multiset::group_multiset_axioms;

    let a = s.subrange(0, i);
    let b = s.subrange(i, s.len() as int);
    assert(s =~= a + b);
    a.to_multiset_ensures();
    lemma_multiset_commutative(a, b);
    lemma_multiset_commutative(a.push(x), b);
    assert(s.insert(i, x) == a.push(x) + b);
    assert(s.insert(i, x).to_multiset() =~= s.to_multiset().insert(x));
}

/// Places one value into an ascending vector, keeping it ascending.
fn insert_sorted_asc(v: &mut Vec<usize>, x: usize)
    requires
        sorted_asc(old(v)@),
        old(v)@.len() < usize::MAX,
    ensures
        sorted_asc(final(v)@),
        final(v)@.to_multiset() == old(v)@.to_multiset().insert(x),
        final(v)@.len() == old(v)@.len() + 1,
{
    let mut p: usize = 0;
    while p < v.len() && v[p] <= x
        invariant
            p <= v@.len(),
            forall|j: int| 0 <= j < p ==> v@[j] <= x,
            v@ == old(v)@,
        decreases v@.len() - p,
    {
        p = p + 1;
    }
    proof {
        lemma_to_multiset_insert(v@, p as int, x);
    }
    v.insert(p, x);
    assert forall|a: int, b: int| 0 <= a <= b < v@.len() implies v@[a] <= v@[b] by {
        assert(forall|k: int|
            0 <= k < v@.len() ==> v@[k] == (if k < p {
                old(v)@[k]
            } else if k == p {
                x
            } else {
                old(v)@[k - 1]
            }));
    }
}

/// Places one value into a descending vector, keeping it descending.
fn insert_sorted_desc(v: &mut Vec<usize>, x: usize)
    requires
        sorted_desc(old(v)@),
        old(v)@.len() < usize::MAX,
    ensures
        sorted_desc(final(v)@),
        final(v)@.to_multiset() == old(v)@.to_multiset().insert(x),
        final(v)@.len() == old(v)@.len() + 1,
{
    let mut p: usize = 0;
    while p < v.len() && v[p] >= x
        invariant
            p <= v@.len(),
            forall|j: int| 0 <= j < p ==> v@[j] >= x,
            v@ == old(v)@,
        decreases v@.len() - p,
    {
        p = p + 1;
    }
    proof {
        lemma_to_multiset_insert(v@, p as int, x);
    }
    v.insert(p, x);
    assert forall|a: int, b: int| 0 <= a <= b < v@.len() implies v@[a] >= v@[b] by {
        assert(forall|k: int|
            0 <= k < v@.len() ==> v@[k] == (if k < p {
                old(v)@[k]
            } else if k == p {
                x
            } else {
                old(v)@[k - 1]
            }));
    }
}

/// Rearranges the vector into ascending order; the values themselves are kept.
pub fn sort_ascending(v: &mut Vec<usize>)
    ensures
        sorted_asc(final(v)@),
        final(v)@.to_multiset() == old(v)@.to_multiset(),
        final(v)@.len() == old(v)@.len(),
{
    let mut out: Vec<usize> = Vec::new();
    let mut i: usize = 0;
    proof {
        assert(out@ =~= v@.take(0));
    }
    while i < v.len()
        invariant
            i <= v@.len(),
            v@ == old(v)@,
            sorted_asc(out@),
            out@.len() == i,
            out@.to_multiset() == v@.take(i as int).to_multiset(),
        decreases v@.len() - i,
    {
        let x = v[i];
        proof {
            v@.take(i as int).to_multiset_ensures();
            assert(v@.take(i + 1) =~= v@.take(i as int).push(x));
        }
        insert_sorted_asc(&mut out, x);
        i = i + 1;
    }
    proof {
        assert(v@.take(v@.len() as int) =~= v@);
    }
    *v = out;
}

/// Rearranges the vector into descending order; the values themselves are kept.
pub fn sort_descending(v: &mut Vec<usize>)
    ensures
        sorted_desc(final(v)@),
        final(v)@.to_multiset() == old(v)@.to_multiset(),
        final(v)@.len() == old(v)@.len(),
{
    let mut out: Vec<usize> = Vec::new();
    let mut i: usize = 0;
    proof {
        assert(out@ =~= v@.take(0));
    }
    while i < v.len()
        invariant
            i <= v@.len(),
            v@ == old(v)@,
            sorted_desc(out@),
            out@.len() == i,
            out@.to_multiset() == v@.take(i as int).to_multiset(),
        decreases v@.len() - i,
    {
        let x = v[i];
        proof {
            v@.take(i as int).to_multiset_ensures();
            assert(v@.take(i + 1) =~= v@.take(i as int).push(x));
        }
        insert_sorted_desc(&mut out, x);
        i = i + 1;
    }
    proof {
        assert(v@.take(v@.len() as int) =~= v@);
    }
    *v = out;
}

/// Rearranging a sequence keeps its values inside any bounds that held of all
/// of them.
pub proof fn lemma_multiset_range(s1: Seq<usize>, s2: Seq<usize>, lo: usize, hi: usize)
    requires
        s1.to_multiset() == s2.to_multiset(),
        forall|i: int| 0 <= i < s1.len() ==> lo <= #[trigger] s1[i] <= hi,
    ensures
        forall|i: int| 0 <= i < s2.len() ==> lo <= #[trigger] s2[i] <= hi,
{
    s1.to_multiset_ensures();
    s2.to_multiset_ensures();
    assert forall|i: int| 0 <= i < s2.len() implies lo <= #[trigger] s2[i] <= hi by {
        assert(s2.contains(s2[i]));
        assert(s2.to_multiset().count(s2[i]) > 0);
        assert(s1.contains(s2[i]));
        let j = choose|j: int| 0 <= j < s1.len() && s1[j] == s2[i];
        assert(lo <= s1[j] <= hi);
    }
}

/// Advantage keeps the highest: after sorting the sampled pool ascending and
/// dropping the `k` lowest, the kept and dropped values together are exactly
/// the sampled pool, and every kept value is at least every dropped value.
pub proof fn lemma_advantage_keeps_highest(samples: Seq<usize>, sorted: Seq<usize>, k: int)
    requires
        sorted_asc(sorted),
        sorted.to_multiset() == samples.to_multiset(),
        0 <= k <= sorted.len(),
    ensures
        sorted.subrange(k, sorted.len() as int).to_multiset().add(
            sorted.subrange(0, k).to_multiset(),
        ) == samples.to_multiset(),
        forall|x: usize, y: usize|
            sorted.subrange(k, sorted.len() as int).to_multiset().contains(x)
                && sorted.subrange(0, k).to_multiset().contains(y) ==> y <= x,
{
    broadcast use vstd::multiset::group_multiset_axioms;

    let kept = sorted.subrange(k, sorted.len() as int);
    let dropped = sorted.subrange(0, k);
    assert(sorted =~= dropped + kept);
    lemma_multiset_commutative(dropped, kept);
    assert(kept.to_multiset().add(dropped.to_multiset()) =~= samples.to_multiset());
    kept.to_multiset_ensures();
    dropped.to_multiset_ensures();
    assert forall|x: usize, y: usize|
        kept.to_multiset().contains(x) && dropped.to_multiset().contains(y) implies y <= x by {
        let i = choose|i: int| 0 <= i < kept.len() && kept[i] == x;
        let j = choose|j: int| 0 <= j < dropped.len() && dropped[j] == y;
        assert(sorted[j] == y && sorted[k + i] == x);
    }
}

/// Disadvantage keeps the lowest: after sorting the sampled pool ascending and
/// dropping all but the first `n`, the kept and dropped values together are
/// exactly the sampled pool, and every kept value is at most every dropped
/// value.
pub proof fn lemma_disadvantage_keeps_lowest(samples: Seq<usize>, sorted: Seq<usize>, n: int)
    requires
        sorted_asc(sorted),
        sorted.to_multiset() == samples.to_multiset(),
        0 <= n <= sorted.len(),
    ensures
        sorted.subrange(0, n).to_multiset().add(
            sorted.subrange(n, sorted.len() as int).to_multiset(),
        ) == samples.to_multiset(),
        forall|x: usize, y: usize|
            sorted.subrange(0, n).to_multiset().contains(x) && sorted.subrange(
                n,
                sorted.len() as int,
            ).to_multiset().contains(y) ==> x <= y,
{
    broadcast use vstd::multiset::group_multiset_axioms;

    let kept = sorted.subrange(0, n);
    let dropped = sorted.subrange(n, sorted.len() as int);
    assert(sorted =~= kept + dropped);
    lemma_multiset_commutative(kept, dropped);
    assert(kept.to_multiset().add(dropped.to_multiset()) =~= samples.to_multiset());
    kept.to_multiset_ensures();
    dropped.to_multiset_ensures();
    assert forall|x: usize, y: usize|
        kept.to_multiset().contains(x) && dropped.to_multiset().contains(y) implies x <= y by {
        let i = choose|i: int| 0 <= i < kept.len() && kept[i] == x;
        let j = choose|j: int| 0 <= j < dropped.len() && dropped[j] == y;
        assert(sorted[i] == x && sorted[n + j] == y);
    }
}

} // verus!
