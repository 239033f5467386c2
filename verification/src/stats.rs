//! A per-shard heap breakdown, for displaying how a sharded structure's
//! memory is spread.

use humansize::{SizeFormatter, BINARY};
use vstd::prelude::*;

use crate::usage::cap_add;

verus! {

/// The text line the per-shard formatter produces for these numbers.
pub uninterp spec fn stats_line(
    total: int,
    overhead: int,
    label: Seq<char>,
    data: int,
    wasted: int,
    count: int,
    active: int,
    min: int,
    max: int,
) -> Seq<char>;

/// The line `render` produces for an aggregate, showing a zero minimum
/// while no shard was observed.
pub open spec fn spec_stats_render(s: Stats) -> Seq<char> {
    let shown_min: int = if s.count == 0 {
        0
    } else {
        s.min as int
    };
    stats_line(
        cap_add(s.overhead as int, s.data as int, usize::MAX as int),
        s.overhead as int,
        s.label@,
        s.data as int,
        s.wasted as int,
        s.count as int,
        s.active as int,
        shown_min,
        s.max as int,
    )
}

/// The aggregate after folding in one shard's numbers.
pub open spec fn spec_observe_stats(pre: Stats, usage: usize, waste: usize) -> Stats {
    Stats {
        data: cap_add(pre.data as int, usage as int, usize::MAX as int) as usize,
        wasted: cap_add(pre.wasted as int, waste as int, usize::MAX as int) as usize,
        count: cap_add(pre.count as int, 1, usize::MAX as int) as usize,
        active: if usage > 0 {
            cap_add(pre.active as int, 1, usize::MAX as int) as usize
        } else {
            pre.active
        },
        min: if usage < pre.min {
            usage
        } else {
            pre.min
        },
        max: if usage > pre.max {
            usage
        } else {
            pre.max
        },
        ..pre
    }
}

/// A component that can report its heap footprint.
pub trait HeapUsage {
    /// The bytes this component has allocated.
    fn heap_usage(&self) -> usize;
}

/// A component that can also report its wasted (allocated but unused)
/// bytes.
pub trait HeapWaste: HeapUsage {
    /// The allocated bytes this component does not use.
    fn heap_waste(&self) -> usize;
}

/// An aggregate of per-shard heap reports.
pub struct Stats {
    pub active: usize,
    pub count: usize,
    pub data: usize,
    pub label: &'static str,
    pub max: usize,
    pub min: usize,
    pub overhead: usize,
    pub wasted: usize,
}

impl Stats {
    /// An empty aggregate under a label, charged with a fixed overhead.
    pub fn new(label: &'static str, overhead: usize) -> (r: Self)
        ensures
            r.label == label && r.overhead == overhead,
            r.active == 0 && r.count == 0 && r.data == 0 && r.wasted == 0,
            r.max == 0 && r.min == usize::MAX,
    {
        Stats { active: 0, count: 0, data: 0, label, max: 0, min: usize::MAX, overhead, wasted: 0 }
    }

    /// Folds one component's heap report into the aggregate. The
    /// numbers folded in are whatever the component returned.
    pub fn observe<T: HeapWaste>(&mut self, item: &T)
        ensures
            exists|usage: usize, waste: usize| *final(self) == spec_observe_stats(
                *old(self),
                usage,
                waste,
            ),
    {
        let usage = item.heap_usage();
        let waste = item.heap_waste();
        self.data = saturating_add(self.data, usage);
        self.wasted = saturating_add(self.wasted, waste);
        self.count = saturating_add(self.count, 1);
        if usage > 0 {
            self.active = saturating_add(self.active, 1);
        }
        if usage < self.min {
            self.min = usage;
        }
        if usage > self.max {
            self.max = usage;
        }
        proof {
            assert(*self == spec_observe_stats(*old(self), usage, waste));
        }
    }

    /// The aggregate as one line of human-readable text.
    pub fn render(&self) -> (r: String)
        ensures
            r@ == spec_stats_render(*self),
    {
        let min = if self.count == 0 {
            0
        } else {
            self.min
        };
        let total = saturating_add(self.overhead, self.data);
        stats_text(
            total,
            self.overhead,
            self.label,
            self.data,
            self.wasted,
            self.count,
            self.active,
            min,
            self.max,
        )
    }
}

/// Adds two byte counts, saturating at the `usize` limit.
fn saturating_add(a: usize, b: usize) -> (r: usize)
    ensures
        r == cap_add(a as int, b as int, usize::MAX as int),
{
    match a.checked_add(b) {
        Some(v) => v,
        None => usize::MAX,
    }
}

/// Relies on `humansize::SizeFormatter`: one line of per-shard usage
/// text, a deterministic function of the numbers and label.
#[verifier::external_body]
fn stats_text(
    total: usize,
    overhead: usize,
    label: &str,
    data: usize,
    wasted: usize,
    count: usize,
    active: usize,
    min: usize,
    max: usize,
) -> (r: String)
    ensures
        r@ == stats_line(
            total as int,
            overhead as int,
            label@,
            data as int,
            wasted as int,
            count as int,
            active as int,
            min as int,
            max as int,
        ),
{
    format!(
        "{} ({} {} + {} data, {} wasted) across {} shards ({} active, shard size {}..{})",
        SizeFormatter::new(total, BINARY),
        SizeFormatter::new(overhead, BINARY),
        label,
        SizeFormatter::new(data, BINARY),
        SizeFormatter::new(wasted, BINARY),
        count,
        active,
        SizeFormatter::new(min, BINARY),
        SizeFormatter::new(max, BINARY),
    )
}

} // verus!
