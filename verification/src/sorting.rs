//! A verified in-place sort over `(key-high, key-low, payload)` triples,
//! ordered lexicographically by the two keys, together with the
//! permutation lemmas its callers need: freezing an arena sorts a
//! permutation of row indices, the timeline sorts arenas by epoch, and
//! the user map sorts target ids before a merge.

use vstd::prelude::*;
use vstd::seq_lib::*;

verus! {

/// One sortable item: two key components compared lexicographically and
/// one payload component that the order ignores.
pub(crate) type Triple = (u32, u64, usize);

/// Lexicographic order on the two key components of a triple.
pub(crate) open spec fn triple_le(a: Triple, b: Triple) -> bool {
    a.0 < b.0 || (a.0 == b.0 && a.1 <= b.1)
}

/// A sequence is sorted when every earlier element is `triple_le` every
/// later one.
pub(crate) open spec fn triples_sorted(s: Seq<Triple>) -> bool {
    forall|i: int, j: int| 0 <= i < j < s.len() ==> triple_le(#[trigger] s[i], #[trigger] s[j])
}

/// Exchanging two elements of a sequence leaves its multiset unchanged.
pub(crate) proof fn lemma_swap_preserves_multiset<A>(s: Seq<A>, i: int, j: int)
    requires
        0 <= i < s.len(),
        0 <= j < s.len(),
    ensures
        s.update(i, s[j]).update(j, s[i]).to_multiset() =~= s.to_multiset(),
{
    broadcast use group_to_multiset_ensures;

    if i == j {
        assert(s.update(i, s[j]).update(j, s[i]) =~= s);
    } else {
        let s1 = s.update(i, s[j]);
        let s2 = s1.update(j, s[i]);
        assert(s1.to_multiset() =~= s.to_multiset().remove(s[i]).insert(s[j]));
        assert(s1[j] == s[j]);
        assert(s2.to_multiset() =~= s1.to_multiset().remove(s[j]).insert(s[i]));
    }
}

/// In-place insertion sort of triples by their lexicographic key.
///
/// The result holds exactly the input elements (as a multiset) in
/// non-decreasing key order.
pub(crate) fn sort_triples(v: &mut Vec<Triple>)
    ensures
        triples_sorted(final(v)@),
        final(v)@.to_multiset() == old(v)@.to_multiset(),
{
    let ghost orig = v@;
    let n = v.len();
    let mut i: usize = 1;
    while i < n
        invariant
            1 <= i <= n || (n == 0 && i == 1),
            n == v.len(),
            v@.to_multiset() == orig.to_multiset(),
            forall|a: int, b: int| 0 <= a < b < i ==> triple_le(#[trigger] v@[a], #[trigger] v@[b]),
        decreases n - i,
    {
        let mut j: usize = i;
        while j > 0
            invariant
                0 <= j <= i < n,
                n == v.len(),
                v@.to_multiset() == orig.to_multiset(),
                forall|a: int, b: int|
                    0 <= a < b <= i && b != j ==> triple_le(#[trigger] v@[a], #[trigger] v@[b]),
            ensures
                0 <= j <= i < n,
                n == v.len(),
                v@.to_multiset() == orig.to_multiset(),
                forall|a: int, b: int|
                    0 <= a < b <= i && b != j ==> triple_le(#[trigger] v@[a], #[trigger] v@[b]),
                j == 0 || triple_le(v@[j - 1], v@[j as int]),
            decreases j,
        {
            let prev = v[j - 1];
            let cur = v[j];
            if prev.0 < cur.0 || (prev.0 == cur.0 && prev.1 <= cur.1) {
                break ;
            }
            proof {
                lemma_swap_preserves_multiset(v@, j - 1, j as int);
            }
            v.set(j - 1, cur);
            v.set(j, prev);
            j = j - 1;
        }
        assert(forall|a: int, b: int|
            0 <= a < b <= i ==> triple_le(#[trigger] v@[a], #[trigger] v@[b]));
        i = i + 1;
    }
}

/// Reading a sequence through two index lists with the same multiset of
/// indices produces the same multiset of elements.
pub(crate) proof fn lemma_gather_multiset_eq<A>(p1: Seq<usize>, p2: Seq<usize>, s: Seq<A>)
    requires
        forall|k: int| 0 <= k < p1.len() ==> #[trigger] p1[k] < s.len(),
        forall|k: int| 0 <= k < p2.len() ==> #[trigger] p2[k] < s.len(),
        p1.to_multiset() == p2.to_multiset(),
    ensures
        Seq::new(p1.len(), |k: int| s[p1[k] as int]).to_multiset() == Seq::new(
            p2.len(),
            |k: int| s[p2[k] as int],
        ).to_multiset(),
    decreases p1.len(),
{
    broadcast use group_to_multiset_ensures;

    let g1 = Seq::new(p1.len(), |k: int| s[p1[k] as int]);
    let g2 = Seq::new(p2.len(), |k: int| s[p2[k] as int]);
    if p1.len() == 0 {
        to_multiset_len(p1);
        to_multiset_len(p2);
        assert(p2.len() == 0);
        assert(g1 =~= g2);
    } else {
        let last = p1.len() - 1;
        let x = p1[last];
        assert(p1.to_multiset().count(x) > 0) by {
            assert(p1.contains(x));
        }
        assert(p2.contains(x));
        let j = choose|j: int| 0 <= j < p2.len() && p2[j] == x;
        let p1r = p1.drop_last();
        let p2r = p2.remove(j);
        assert(p1r.to_multiset() =~= p1.to_multiset().remove(x)) by {
            assert(p1 =~= p1r.push(x));
        }
        assert(p2r.to_multiset() =~= p2.to_multiset().remove(x));
        assert(p1r.to_multiset() == p2r.to_multiset());
        lemma_gather_multiset_eq(p1r, p2r, s);
        let g1r = Seq::new(p1r.len(), |k: int| s[p1r[k] as int]);
        let g2r = Seq::new(p2r.len(), |k: int| s[p2r[k] as int]);
        assert(g1 =~= g1r.push(s[x as int]));
        assert(g2r =~= g2.remove(j));
        assert(g2[j] == s[x as int]);
        assert(g1.to_multiset() =~= g1r.to_multiset().insert(s[x as int]));
        assert(g2r.to_multiset() =~= g2.to_multiset().remove(s[x as int]));
        assert(g2.to_multiset().count(s[x as int]) > 0) by {
            assert(g2.contains(s[x as int]));
        }
        assert(g1.to_multiset() =~= g2.to_multiset());
    }
}

/// Reading a sequence through a permutation of `0 .. len` produces a
/// permutation of the sequence itself.
pub(crate) proof fn lemma_gather_permutation<A>(p: Seq<usize>, s: Seq<A>)
    requires
        s.len() <= usize::MAX,
        forall|k: int| 0 <= k < p.len() ==> #[trigger] p[k] < s.len(),
        p.to_multiset() == Seq::new(s.len(), |k: int| k as usize).to_multiset(),
    ensures
        Seq::new(p.len(), |k: int| s[p[k] as int]).to_multiset() == s.to_multiset(),
{
    let ident = Seq::new(s.len(), |k: int| k as usize);
    assert(forall|k: int| 0 <= k < ident.len() ==> #[trigger] ident[k] < s.len());
    lemma_gather_multiset_eq(p, ident, s);
    assert(Seq::new(ident.len(), |k: int| s[ident[k] as int]) =~= s);
}

/// Mapping two sequences with the same multiset produces the same
/// multiset of images.
pub(crate) proof fn lemma_map_values_multiset_eq<A, B>(s1: Seq<A>, s2: Seq<A>, f: spec_fn(A) -> B)
    requires
        s1.to_multiset() == s2.to_multiset(),
    ensures
        s1.map_values(f).to_multiset() == s2.map_values(f).to_multiset(),
    decreases s1.len(),
{
    broadcast use group_to_multiset_ensures;

    if s1.len() == 0 {
        to_multiset_len(s1);
        to_multiset_len(s2);
        assert(s1.map_values(f) =~= s2.map_values(f));
    } else {
        let x = s1.last();
        assert(s1.to_multiset().count(x) > 0) by {
            assert(s1.contains(x));
        }
        assert(s2.contains(x));
        let j = choose|j: int| 0 <= j < s2.len() && s2[j] == x;
        let s1r = s1.drop_last();
        let s2r = s2.remove(j);
        assert(s1r.to_multiset() =~= s1.to_multiset().remove(x)) by {
            assert(s1 =~= s1r.push(x));
        }
        assert(s2r.to_multiset() =~= s2.to_multiset().remove(x));
        lemma_map_values_multiset_eq(s1r, s2r, f);
        assert(s1.map_values(f) =~= s1r.map_values(f).push(f(x)));
        assert(s2r.map_values(f) =~= s2.map_values(f).remove(j));
        assert(s2.map_values(f)[j] == f(x));
        assert(s1.map_values(f).to_multiset() =~= s1r.map_values(f).to_multiset().insert(f(x)));
        assert(s2r.map_values(f).to_multiset() =~= s2.map_values(f).to_multiset().remove(f(x)));
        assert(s2.map_values(f).to_multiset().count(f(x)) > 0) by {
            assert(s2.map_values(f).contains(f(x)));
        }
        assert(s1.map_values(f).to_multiset() =~= s2.map_values(f).to_multiset());
    }
}

/// A sequence whose multiset is that of `0 .. len` holds distinct
/// values.
pub(crate) proof fn lemma_identity_multiset_distinct(p: Seq<usize>, n: nat)
    requires
        n <= usize::MAX,
        p.to_multiset() == Seq::new(n, |k: int| k as usize).to_multiset(),
    ensures
        forall|a: int, b: int| 0 <= a < b < p.len() ==> p[a] != p[b],
{
    let ident = Seq::new(n, |k: int| k as usize);
    assert(forall|a: int, b: int| 0 <= a < b < ident.len() ==> ident[a] != ident[b]);
    ident.lemma_multiset_has_no_duplicates();
    assert(p.no_duplicates()) by {
        p.lemma_multiset_has_no_duplicates_conv();
    }
}

} // verus!

verus! {

/// The sum of a weight over a sequence's elements.
pub open spec fn sum_by<A>(s: Seq<A>, f: spec_fn(A) -> int) -> int
    decreases s.len(),
{
    if s.len() == 0 {
        0
    } else {
        sum_by(s.drop_last(), f) + f(s.last())
    }
}

/// A sum of non-negative weights is non-negative.
pub(crate) proof fn lemma_sum_by_nonneg<A>(s: Seq<A>, f: spec_fn(A) -> int)
    requires
        forall|i: int| 0 <= i < s.len() ==> f(#[trigger] s[i]) >= 0,
    ensures
        sum_by(s, f) >= 0,
    decreases s.len(),
{
    if s.len() > 0 {
        let front = s.drop_last();
        assert(forall|i: int| 0 <= i < front.len() ==> front[i] == s[i]);
        lemma_sum_by_nonneg(front, f);
    }
}

/// Sums split over concatenation.
pub(crate) proof fn lemma_sum_by_concat<A>(a: Seq<A>, b: Seq<A>, f: spec_fn(A) -> int)
    ensures
        sum_by(a + b, f) == sum_by(a, f) + sum_by(b, f),
    decreases b.len(),
{
    if b.len() == 0 {
        assert(a + b =~= a);
    } else {
        lemma_sum_by_concat(a, b.drop_last(), f);
        assert((a + b).drop_last() =~= a + b.drop_last());
        assert((a + b).last() == b.last());
    }
}

/// A subrange of non-negative weights sums to at most the whole.
pub(crate) proof fn lemma_sum_by_subrange<A>(s: Seq<A>, f: spec_fn(A) -> int, i: int, j: int)
    requires
        0 <= i <= j <= s.len(),
        forall|k: int| 0 <= k < s.len() ==> f(#[trigger] s[k]) >= 0,
    ensures
        sum_by(s.subrange(i, j), f) <= sum_by(s, f),
        sum_by(s.subrange(i, j), f) >= 0,
{
    let lo = s.subrange(0, i);
    let mid = s.subrange(i, j);
    let hi = s.subrange(j, s.len() as int);
    assert(s =~= (lo + mid) + hi);
    lemma_sum_by_concat(lo + mid, hi, f);
    lemma_sum_by_concat(lo, mid, f);
    assert(forall|k: int| 0 <= k < lo.len() ==> f(#[trigger] lo[k]) >= 0);
    assert(forall|k: int| 0 <= k < mid.len() ==> f(#[trigger] mid[k]) >= 0);
    assert(forall|k: int| 0 <= k < hi.len() ==> f(#[trigger] hi[k]) >= 0);
    lemma_sum_by_nonneg(lo, f);
    lemma_sum_by_nonneg(mid, f);
    lemma_sum_by_nonneg(hi, f);
}

/// Sums agree on sequences whose elements weigh the same pointwise.
pub(crate) proof fn lemma_sum_by_pointwise<A, B>(a: Seq<A>, b: Seq<B>, f: spec_fn(A) -> int, g: spec_fn(
    B,
) -> int)
    requires
        a.len() == b.len(),
        forall|i: int| 0 <= i < a.len() ==> f(#[trigger] a[i]) == g(#[trigger] b[i]),
    ensures
        sum_by(a, f) == sum_by(b, g),
    decreases a.len(),
{
    if a.len() > 0 {
        let af = a.drop_last();
        let bf = b.drop_last();
        assert(forall|i: int| 0 <= i < af.len() ==> af[i] == a[i] && bf[i] == b[i]);
        lemma_sum_by_pointwise(af, bf, f, g);
        assert(f(a.last()) == g(b.last()));
    }
}

/// Removing one element takes exactly its weight out of the sum.
proof fn lemma_sum_by_remove<A>(s: Seq<A>, f: spec_fn(A) -> int, j: int)
    requires
        0 <= j < s.len(),
    ensures
        sum_by(s.remove(j), f) == sum_by(s, f) - f(s[j]),
{
    let lo = s.subrange(0, j);
    let one = s.subrange(j, j + 1);
    let hi = s.subrange(j + 1, s.len() as int);
    assert(s =~= (lo + one) + hi);
    assert(s.remove(j) =~= lo + hi);
    lemma_sum_by_concat(lo + one, hi, f);
    lemma_sum_by_concat(lo, one, f);
    lemma_sum_by_concat(lo, hi, f);
    assert(one.drop_last() =~= Seq::<A>::empty());
    assert(one.last() == s[j]);
    assert(sum_by(Seq::<A>::empty(), f) == 0);
    assert(sum_by(one, f) == f(s[j]));
}

/// Sequences with the same multiset have the same weighted sum.
pub(crate) proof fn lemma_sum_by_multiset<A>(s1: Seq<A>, s2: Seq<A>, f: spec_fn(A) -> int)
    requires
        s1.to_multiset() == s2.to_multiset(),
    ensures
        sum_by(s1, f) == sum_by(s2, f),
    decreases s1.len(),
{
    broadcast use group_to_multiset_ensures;

    if s1.len() == 0 {
        to_multiset_len(s1);
        to_multiset_len(s2);
        assert(s2 =~= Seq::<A>::empty());
    } else {
        let x = s1.last();
        assert(s1.to_multiset().count(x) > 0) by {
            assert(s1.contains(x));
        }
        assert(s2.contains(x));
        let j = choose|j: int| 0 <= j < s2.len() && s2[j] == x;
        let s1r = s1.drop_last();
        let s2r = s2.remove(j);
        assert(s1r.to_multiset() =~= s1.to_multiset().remove(x)) by {
            assert(s1 =~= s1r.push(x));
        }
        assert(s2r.to_multiset() =~= s2.to_multiset().remove(x));
        lemma_sum_by_multiset(s1r, s2r, f);
        lemma_sum_by_remove(s2, f, j);
    }
}

} // verus!
