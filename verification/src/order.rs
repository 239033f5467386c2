//! Iteration direction: ascending or descending, with an ordered index
//! range and a direction-aware sort.

use vstd::prelude::*;
use vstd::relations::{sorted_by, total_ordering};
use vstd::seq_lib::*;

verus! {

/// A direction for walking entries: ascending or descending timestamp
/// order.
#[derive(Clone, Copy, Debug, PartialEq, Eq, Structural)]
pub enum Order {
    Asc,
    Desc,
}

/// An iterator over the indices of a half-open range, walked in the
/// direction of the [`Order`] that created it.
#[derive(Clone, Copy)]
pub enum OrderedRange {
    Asc { cur: usize, end: usize },
    Desc { start: usize, cur: usize },
}

/// The indices of `start .. end`, in the given direction; empty when
/// `start >= end`.
pub open spec fn range_seq(order: Order, start: usize, end: usize) -> Seq<usize> {
    let n = if start <= end {
        end - start
    } else {
        0
    };
    match order {
        Order::Asc => Seq::new(n as nat, |i: int| (start + i) as usize),
        Order::Desc => Seq::new(n as nat, |i: int| (end - 1 - i) as usize),
    }
}

impl OrderedRange {
    /// The indices this iterator has yet to yield, in order.
    pub open spec fn remaining(self) -> Seq<usize> {
        match self {
            OrderedRange::Asc { cur, end } => range_seq(Order::Asc, cur, end),
            OrderedRange::Desc { start, cur } => range_seq(Order::Desc, start, cur),
        }
    }

    /// Yields the next index in this range's direction, or `None` once
    /// the range is exhausted.
    pub fn next(&mut self) -> (r: Option<usize>)
        ensures
            match r {
                Some(idx) => old(self).remaining().len() > 0 && idx == old(self).remaining()[0]
                    && final(self).remaining() == old(self).remaining().drop_first(),
                None => old(self).remaining().len() == 0 && final(self).remaining().len() == 0,
            },
    {
        let s = *self;
        match s {
            OrderedRange::Asc { cur, end } => {
                if cur < end {
                    *self = OrderedRange::Asc { cur: cur + 1, end };
                    proof {
                        assert((*self).remaining() =~= old(self).remaining().drop_first());
                    }
                    Some(cur)
                } else {
                    None
                }
            },
            OrderedRange::Desc { start, cur } => {
                if cur > start {
                    *self = OrderedRange::Desc { start, cur: cur - 1 };
                    proof {
                        assert((*self).remaining() =~= old(self).remaining().drop_first());
                    }
                    Some(cur - 1)
                } else {
                    None
                }
            },
        }
    }
}

impl Order {
    /// An iterator over the indices of `r`, ascending for `Asc` and
    /// descending for `Desc`.
    pub fn range(self, r: core::ops::Range<usize>) -> (o: OrderedRange)
        ensures
            o.remaining() == range_seq(self, r.start, r.end),
    {
        let start = r.start;
        let end = if r.end < r.start {
            r.start
        } else {
            r.end
        };
        proof {
            assert(range_seq(self, start, end) =~= range_seq(self, r.start, r.end));
        }
        match self {
            Order::Asc => OrderedRange::Asc { cur: start, end },
            Order::Desc => OrderedRange::Desc { start, cur: end },
        }
    }

    /// Sorts the slice by its values, ascending for `Asc` and descending
    /// for `Desc`. The result holds exactly the input values.
    pub fn sort_unstable_by_key(&self, slice: &mut Vec<u64>)
        ensures
            final(slice)@.to_multiset() == old(slice)@.to_multiset(),
            match self {
                Order::Asc => sorted_ascending(final(slice)@),
                Order::Desc => sorted_descending(final(slice)@),
            },
    {
        sort_u64s(slice);
        match self {
            Order::Asc => {},
            Order::Desc => {
                let ghost mid = slice@;
                reverse_u64s(slice);
                proof {
                    mid.lemma_reverse_to_multiset();
                }
            },
        }
    }
}

/// Every earlier element is at most every later one.
pub open spec fn sorted_ascending(s: Seq<u64>) -> bool {
    forall|i: int, j: int| 0 <= i < j < s.len() ==> #[trigger] s[i] <= #[trigger] s[j]
}

/// Every earlier element is at least every later one.
pub open spec fn sorted_descending(s: Seq<u64>) -> bool {
    forall|i: int, j: int| 0 <= i < j < s.len() ==> #[trigger] s[i] >= #[trigger] s[j]
}

/// In-place insertion sort of `u64` values, ascending.
fn sort_u64s(v: &mut Vec<u64>)
    ensures
        sorted_ascending(final(v)@),
        final(v)@.to_multiset() == old(v)@.to_multiset(),
{
    let ghost orig = v@;
    let n = v.len();
    let mut i: usize = 1;
    while i < n
        invariant
            1 <= i <= n || (n == 0 && i == 1),
            n == v.len(),
            v@.to_multiset() == orig.to_multiset(),
            forall|a: int, b: int| 0 <= a < b < i ==> #[trigger] v@[a] <= #[trigger] v@[b],
        decreases n - i,
    {
        let mut j: usize = i;
        while j > 0
            invariant
                0 <= j <= i < n,
                n == v.len(),
                v@.to_multiset() == orig.to_multiset(),
                forall|a: int, b: int|
                    0 <= a < b <= i && b != j ==> #[trigger] v@[a] <= #[trigger] v@[b],
            ensures
                0 <= j <= i < n,
                n == v.len(),
                v@.to_multiset() == orig.to_multiset(),
                forall|a: int, b: int|
                    0 <= a < b <= i && b != j ==> #[trigger] v@[a] <= #[trigger] v@[b],
                j == 0 || v@[j - 1] <= v@[j as int],
            decreases j,
        {
            let prev = v[j - 1];
            let cur = v[j];
            if prev <= cur {
                break ;
            }
            proof {
                crate::sorting::lemma_swap_preserves_multiset(v@, j - 1, j as int);
            }
            v.set(j - 1, cur);
            v.set(j, prev);
            j = j - 1;
        }
        i = i + 1;
    }
}

/// In-place reversal.
fn reverse_u64s(v: &mut Vec<u64>)
    ensures
        final(v)@ == old(v)@.reverse(),
{
    let ghost orig = v@;
    let n = v.len();
    let mut i: usize = 0;
    while i < n / 2
        invariant
            0 <= i <= n,
            2 * i <= n,
            n == v.len(),
            forall|k: int| 0 <= k < i ==> #[trigger] v@[k] == orig[n - 1 - k],
            forall|k: int| n - i <= k < n ==> #[trigger] v@[k] == orig[n - 1 - k],
            forall|k: int| i <= k < n - i ==> #[trigger] v@[k] == orig[k],
        decreases n - i,
    {
        let a = v[i];
        let b = v[n - 1 - i];
        v.set(i, b);
        v.set(n - 1 - i, a);
        i = i + 1;
    }
    proof {
        assert(v@ =~= orig.reverse());
    }
}

/// Sorting the same values ascending and descending yields sequences
/// that are reverses of each other.
pub proof fn lemma_sort_duality(asc: Seq<u64>, desc: Seq<u64>)
    requires
        sorted_ascending(asc),
        sorted_descending(desc),
        asc.to_multiset() == desc.to_multiset(),
    ensures
        desc.reverse() == asc,
{
    let leq = |a: u64, b: u64| a <= b;
    assert(total_ordering(leq));
    desc.lemma_reverse_to_multiset();
    assert(sorted_by(desc.reverse(), leq)) by {
        assert(forall|i: int, j: int|
            0 <= i < j < desc.reverse().len() ==> desc.reverse()[i] == desc[desc.len() - 1 - i]
                && desc.reverse()[j] == desc[desc.len() - 1 - j]);
    }
    assert(sorted_by(asc, leq));
    lemma_sorted_unique(desc.reverse(), asc, leq);
    assert(desc.reverse() =~= asc);
}

/// An ascending index range, reversed, is the descending range over the
/// same bounds.
pub proof fn lemma_range_duality(start: usize, end: usize)
    ensures
        range_seq(Order::Asc, start, end).reverse() == range_seq(Order::Desc, start, end),
{
    assert(range_seq(Order::Asc, start, end).reverse() =~= range_seq(Order::Desc, start, end));
}

} // verus!
