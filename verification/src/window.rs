//! The half-open time interval `[epoch, epoch + duration)` claimed by an
//! arena, with conversion between absolute timestamps and the relative
//! 32-bit offsets an arena stores.

use vstd::prelude::*;

use crate::Timestamp;

verus! {

/// A half-open time interval `[epoch, epoch + duration)`.
///
/// A window with `duration == 0` contains nothing. Any window whose
/// `end_exclusive` is queried must satisfy [`Window::bounded`]: the end
/// must fit in a `u64`.
#[derive(Debug, PartialEq, Eq, Structural, Clone, Copy)]
pub struct Window {
    pub duration: u32,
    pub epoch: Timestamp,
}

impl Window {
    /// The interval end fits in a `u64`, so `end_exclusive` cannot
    /// overflow.
    pub open spec fn bounded(self) -> bool {
        self.epoch + self.duration <= u64::MAX
    }

    /// Whether `ts` lies inside the half-open interval.
    pub open spec fn spec_contains(self, ts: Timestamp) -> bool {
        self.epoch <= ts < self.epoch + self.duration
    }

    /// The absolute timestamp for a relative offset.
    pub open spec fn spec_to_absolute(self, rel: u32) -> Timestamp
        recommends
            self.epoch + rel <= u64::MAX,
    {
        (self.epoch + rel) as Timestamp
    }

    /// The relative offset for an absolute timestamp inside the window.
    pub open spec fn spec_to_relative(self, ts: Timestamp) -> u32
        recommends
            self.spec_contains(ts),
    {
        (ts - self.epoch) as u32
    }

    pub fn new(epoch: Timestamp, duration: u32) -> (w: Self)
        ensures
            w == (Window { duration, epoch }),
    {
        Self { epoch, duration }
    }

    pub fn contains(&self, ts: Timestamp) -> (r: bool)
        requires
            self.bounded(),
        ensures
            r == self.spec_contains(ts),
    {
        ts >= self.epoch && ts < self.end_exclusive()
    }

    pub fn convert_to_absolute(&self, rel: u32) -> (ts: Timestamp)
        requires
            self.epoch + rel <= u64::MAX,
        ensures
            ts == self.spec_to_absolute(rel),
    {
        self.epoch + rel as u64
    }

    pub fn convert_to_relative(&self, ts: Timestamp) -> (rel: u32)
        requires
            self.spec_contains(ts),
        ensures
            rel == self.spec_to_relative(ts),
            self.spec_to_absolute(rel) == ts,
    {
        (ts - self.epoch) as u32
    }

    pub fn end_exclusive(&self) -> (end: Timestamp)
        requires
            self.bounded(),
        ensures
            end == self.epoch + self.duration,
    {
        self.epoch + self.duration as u64
    }
}

/// Converting a timestamp inside a window to its relative offset and
/// back returns the timestamp unchanged.
pub proof fn lemma_window_round_trip(w: Window, ts: Timestamp)
    requires
        w.spec_contains(ts),
    ensures
        w.spec_to_absolute(w.spec_to_relative(ts)) == ts,
{
}

} // verus!
