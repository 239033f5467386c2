//! A standalone time-span value: the same half-open interval shape as
//! [`crate::Window`], kept as an independent type for callers that track
//! spans apart from arenas.

use vstd::prelude::*;

use crate::Timestamp;

verus! {

/// A half-open interval `[epoch, epoch + duration)` over timestamps.
#[derive(Debug, PartialEq, Eq, Structural, Clone, Copy)]
pub struct TimeSpan {
    pub duration: u32,
    pub epoch: Timestamp,
}

impl TimeSpan {
    /// The interval end fits in a `u64`.
    pub open spec fn bounded(self) -> bool {
        self.epoch + self.duration <= u64::MAX
    }

    /// Whether `ts` lies inside the interval.
    pub open spec fn spec_contains(self, ts: Timestamp) -> bool {
        self.epoch <= ts < self.epoch + self.duration
    }

    pub fn new(epoch: Timestamp, duration: u32) -> (s: Self)
        ensures
            s == (TimeSpan { duration, epoch }),
    {
        Self { epoch, duration }
    }

    pub fn contains(&self, ts: Timestamp) -> (r: bool)
        requires
            self.bounded(),
        ensures
            r == self.spec_contains(ts),
    {
        ts >= self.epoch && ts < self.end_exclusive()
    }

    pub fn convert_to_absolute(&self, rel: u32) -> (ts: Timestamp)
        requires
            self.epoch + rel <= u64::MAX,
        ensures
            ts == self.epoch + rel,
    {
        self.epoch + rel as u64
    }

    pub fn convert_to_relative(&self, ts: Timestamp) -> (rel: u32)
        requires
            self.spec_contains(ts),
        ensures
            rel == ts - self.epoch,
            self.epoch + rel == ts,
    {
        (ts - self.epoch) as u32
    }

    pub fn end_exclusive(&self) -> (end: Timestamp)
        requires
            self.bounded(),
        ensures
            end == self.epoch + self.duration,
    {
        self.epoch + self.duration as u64
    }
}

} // verus!
