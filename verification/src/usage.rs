//! Uniform heap, waste and disk accounting across components.
//!
//! Components with vectors report `capacity * element size` as heap and
//! `(capacity - length) * element size` as waste; on-disk stores report
//! their file size. Sums saturate at the integer limits; the numbers
//! are purely observational.

use humansize::{SizeFormatter, BINARY};
use vstd::prelude::*;

verus! {

/// The saturating sum of two byte counts.
pub open spec fn cap_add(a: int, b: int, limit: int) -> int {
    if a + b > limit {
        limit
    } else {
        a + b
    }
}

/// The text line the usage formatter produces for these numbers,
/// without a disk part.
pub uninterp spec fn usage_line(
    total: int,
    overhead: int,
    label: Seq<char>,
    heap: int,
    waste: int,
    count: int,
    active: int,
    min: int,
    max: int,
) -> Seq<char>;

/// The text line the usage formatter produces for these numbers, with a
/// disk part.
pub uninterp spec fn usage_line_disk(
    total: int,
    overhead: int,
    label: Seq<char>,
    heap: int,
    waste: int,
    disk: int,
    count: int,
    active: int,
    min: int,
    max: int,
) -> Seq<char>;

/// The line `render` produces for a report: the disk form when disk
/// bytes were charged, showing a zero minimum while no component was
/// observed.
pub open spec fn spec_usage_render(u: Usage) -> Seq<char> {
    let shown_min: int = if u.count == 0 {
        0
    } else {
        u.min as int
    };
    let total = cap_add(u.overhead as int, u.heap as int, usize::MAX as int);
    if u.disk > 0 {
        usage_line_disk(
            total,
            u.overhead as int,
            u.label@,
            u.heap as int,
            u.waste as int,
            u.disk as int,
            u.count as int,
            u.active as int,
            shown_min,
            u.max as int,
        )
    } else {
        usage_line(
            total,
            u.overhead as int,
            u.label@,
            u.heap as int,
            u.waste as int,
            u.count as int,
            u.active as int,
            shown_min,
            u.max as int,
        )
    }
}

/// The report after folding in one component's numbers: totals summed,
/// the count grown, the active count grown for a non-empty component,
/// and the minimum and maximum per-component heap sizes tracked.
pub open spec fn spec_observe(pre: Usage, u: Usage) -> Usage {
    let count = cap_add(pre.count as int, 1, usize::MAX as int) as usize;
    Usage {
        heap: cap_add(pre.heap as int, u.heap as int, usize::MAX as int) as usize,
        waste: cap_add(pre.waste as int, u.waste as int, usize::MAX as int) as usize,
        disk: cap_add(pre.disk as int, u.disk as int, u64::MAX as int) as u64,
        count,
        active: if u.heap > 0 {
            cap_add(pre.active as int, 1, usize::MAX as int) as usize
        } else {
            pre.active
        },
        min: if count == 1 {
            u.heap
        } else if u.heap < pre.min {
            u.heap
        } else {
            pre.min
        },
        max: if count == 1 {
            u.heap
        } else if u.heap > pre.max {
            u.heap
        } else {
            pre.max
        },
        ..pre
    }
}

/// A component that can report its memory and disk footprint.
pub trait ReportUsage {
    /// This component's current footprint.
    fn usage(&self) -> Usage;
}

/// One footprint report: heap bytes, wasted (allocated but unused)
/// bytes, disk bytes, and aggregate counts for per-component breakdowns.
pub struct Usage {
    pub active: usize,
    pub count: usize,
    pub label: &'static str,
    pub max: usize,
    pub min: usize,
    pub overhead: usize,
    pub disk: u64,
    pub heap: usize,
    pub waste: usize,
}

impl Default for Usage {
    /// An all-zero report with an empty label.
    fn default() -> (r: Usage)
        ensures
            r.active == 0 && r.count == 0 && r.max == 0 && r.min == 0 && r.overhead == 0,
            r.disk == 0 && r.heap == 0 && r.waste == 0,
    {
        Usage {
            active: 0,
            count: 0,
            label: "",
            max: 0,
            min: 0,
            overhead: 0,
            disk: 0,
            heap: 0,
            waste: 0,
        }
    }
}

impl Usage {
    /// An empty report under a label, charged with a fixed overhead.
    pub fn new(label: &'static str, overhead: usize) -> (r: Self)
        ensures
            r.label == label && r.overhead == overhead,
            r.active == 0 && r.count == 0 && r.max == 0 && r.min == 0,
            r.disk == 0 && r.heap == 0 && r.waste == 0,
    {
        Usage { active: 0, count: 0, label, max: 0, min: 0, overhead, disk: 0, heap: 0, waste: 0 }
    }

    /// Charges the bytes of a fully used buffer: length times element
    /// size, with no waste.
    pub fn add_boxed_slice<T>(&mut self, s: &[T])
        ensures
            final(self).heap == cap_add(
                old(self).heap as int,
                cap_mul_spec(s@.len() as int, vstd::layout::size_of::<T>() as int),
                usize::MAX as int,
            ),
            *final(self) == (Usage { heap: final(self).heap, ..*old(self) }),
    {
        let bytes = cap_mul(s.len(), core::mem::size_of::<T>());
        self.heap = saturating_add_usize(self.heap, bytes);
    }

    /// Charges heap bytes directly.
    pub fn add_heap_usage(&mut self, bytes: usize)
        ensures
            final(self).heap == cap_add(old(self).heap as int, bytes as int, usize::MAX as int),
            *final(self) == (Usage { heap: final(self).heap, ..*old(self) }),
    {
        self.heap = saturating_add_usize(self.heap, bytes);
    }

    /// Charges wasted (allocated but unused) heap bytes.
    pub fn add_heap_waste(&mut self, bytes: usize)
        ensures
            final(self).waste == cap_add(old(self).waste as int, bytes as int, usize::MAX as int),
            *final(self) == (Usage { waste: final(self).waste, ..*old(self) }),
    {
        self.waste = saturating_add_usize(self.waste, bytes);
    }

    /// Charges on-disk bytes.
    pub fn add_disk_usage(&mut self, bytes: u64)
        ensures
            final(self).disk == cap_add(old(self).disk as int, bytes as int, u64::MAX as int),
            *final(self) == (Usage { disk: final(self).disk, ..*old(self) }),
    {
        self.disk = saturating_add_u64(self.disk, bytes);
    }

    /// Charges a vector's footprint: its capacity as heap, its unused
    /// capacity as waste.
    pub fn add_vec<T>(&mut self, v: &Vec<T>)
        ensures
            final(self).heap >= old(self).heap,
            final(self).waste >= old(self).waste,
            *final(self) == (Usage {
                heap: final(self).heap,
                waste: final(self).waste,
                ..*old(self)
            }),
    {
        let cap = vec_capacity(v);
        self.heap = saturating_add_usize(self.heap, cap_mul(cap, core::mem::size_of::<T>()));
        self.waste = saturating_add_usize(
            self.waste,
            cap_mul(cap - v.len(), core::mem::size_of::<T>()),
        );
    }

    /// Folds one component's report into this aggregate: totals are
    /// summed, the component count grows, and the minimum and maximum
    /// per-component heap sizes are tracked. The report folded in is
    /// whatever the component returned.
    pub fn observe<T: ReportUsage>(&mut self, item: &T)
        ensures
            exists|u: Usage| *final(self) == spec_observe(*old(self), u),
    {
        let u = item.usage();
        let ghost witness = u;
        self.heap = saturating_add_usize(self.heap, u.heap);
        self.waste = saturating_add_usize(self.waste, u.waste);
        self.disk = saturating_add_u64(self.disk, u.disk);
        self.count = saturating_add_usize(self.count, 1);
        if u.heap > 0 {
            self.active = saturating_add_usize(self.active, 1);
        }
        if self.count == 1 {
            self.min = u.heap;
            self.max = u.heap;
        } else {
            if u.heap < self.min {
                self.min = u.heap;
            }
            if u.heap > self.max {
                self.max = u.heap;
            }
        }
        proof {
            assert(*self == spec_observe(*old(self), witness));
        }
    }

    /// Folds another report's totals into this one, leaving the
    /// aggregate counts untouched.
    pub fn combine(&mut self, rhs: Usage)
        ensures
            final(self).heap == cap_add(old(self).heap as int, rhs.heap as int, usize::MAX as int),
            final(self).waste == cap_add(
                old(self).waste as int,
                rhs.waste as int,
                usize::MAX as int,
            ),
            final(self).disk == cap_add(old(self).disk as int, rhs.disk as int, u64::MAX as int),
            *final(self) == (Usage {
                heap: final(self).heap,
                waste: final(self).waste,
                disk: final(self).disk,
                ..*old(self)
            }),
    {
        self.heap = saturating_add_usize(self.heap, rhs.heap);
        self.waste = saturating_add_usize(self.waste, rhs.waste);
        self.disk = saturating_add_u64(self.disk, rhs.disk);
    }

    /// The report as one line of human-readable text.
    pub fn render(&self) -> (r: String)
        ensures
            r@ == spec_usage_render(*self),
    {
        let min = if self.count == 0 {
            0
        } else {
            self.min
        };
        let total = saturating_add_usize(self.overhead, self.heap);
        if self.disk > 0 {
            usage_text_with_disk(
                total,
                self.overhead,
                self.label,
                self.heap,
                self.waste,
                self.disk,
                self.count,
                self.active,
                min,
                self.max,
            )
        } else {
            usage_text(
                total,
                self.overhead,
                self.label,
                self.heap,
                self.waste,
                self.count,
                self.active,
                min,
                self.max,
            )
        }
    }
}

/// The saturating product used by the byte accounting.
pub open spec fn cap_mul_spec(a: int, b: int) -> int {
    if a * b > usize::MAX {
        usize::MAX as int
    } else {
        a * b
    }
}

/// Multiplies two byte counts, saturating at the `usize` limit.
pub(crate) fn cap_mul(a: usize, b: usize) -> (r: usize)
    ensures
        r == cap_mul_spec(a as int, b as int),
{
    match a.checked_mul(b) {
        Some(v) => v,
        None => usize::MAX,
    }
}

/// Adds two byte counts, saturating at the `usize` limit.
pub(crate) fn saturating_add_usize(a: usize, b: usize) -> (r: usize)
    ensures
        r == cap_add(a as int, b as int, usize::MAX as int),
{
    match a.checked_add(b) {
        Some(v) => v,
        None => usize::MAX,
    }
}

/// Adds two byte counts, saturating at the `u64` limit.
fn saturating_add_u64(a: u64, b: u64) -> (r: u64)
    ensures
        r == cap_add(a as int, b as int, u64::MAX as int),
{
    match a.checked_add(b) {
        Some(v) => v,
        None => u64::MAX,
    }
}

/// Relies on `Vec::capacity`: a vector's capacity is at least its
/// length, and Rust allocations keep `capacity * element size` within
/// `isize::MAX` bytes.
#[verifier::external_body]
pub(crate) fn vec_capacity<T>(v: &Vec<T>) -> (r: usize)
    ensures
        r >= v@.len(),
{
    v.capacity()
}

/// Relies on `humansize::SizeFormatter`: one line of usage text with a
/// disk component, a deterministic function of the numbers and label.
#[verifier::external_body]
fn usage_text_with_disk(
    total: usize,
    overhead: usize,
    label: &str,
    heap: usize,
    waste: usize,
    disk: u64,
    count: usize,
    active: usize,
    min: usize,
    max: usize,
) -> (r: String)
    ensures
        r@ == usage_line_disk(
            total as int,
            overhead as int,
            label@,
            heap as int,
            waste as int,
            disk as int,
            count as int,
            active as int,
            min as int,
            max as int,
        ),
{
    format!(
        "{} ({} {} + {} data, {} wasted, {} on disk) across {} ({} active, {}..{})",
        SizeFormatter::new(total, BINARY),
        SizeFormatter::new(overhead, BINARY),
        label,
        SizeFormatter::new(heap, BINARY),
        SizeFormatter::new(waste, BINARY),
        SizeFormatter::new(disk, BINARY),
        count,
        active,
        SizeFormatter::new(min, BINARY),
        SizeFormatter::new(max, BINARY),
    )
}

/// Relies on `humansize::SizeFormatter`: one line of usage text without
/// a disk component, a deterministic function of the numbers and label.
#[verifier::external_body]
fn usage_text(
    total: usize,
    overhead: usize,
    label: &str,
    heap: usize,
    waste: usize,
    count: usize,
    active: usize,
    min: usize,
    max: usize,
) -> (r: String)
    ensures
        r@ == usage_line(
            total as int,
            overhead as int,
            label@,
            heap as int,
            waste as int,
            count as int,
            active as int,
            min as int,
            max as int,
        ),
{
    format!(
        "{} ({} {} + {} data, {} wasted) across {} ({} active, {}..{})",
        SizeFormatter::new(total, BINARY),
        SizeFormatter::new(overhead, BINARY),
        label,
        SizeFormatter::new(heap, BINARY),
        SizeFormatter::new(waste, BINARY),
        count,
        active,
        SizeFormatter::new(min, BINARY),
        SizeFormatter::new(max, BINARY),
    )
}

} // verus!
