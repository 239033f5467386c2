//! The relationship graph: a pair of directed user maps, `follows` and
//! `blocks`, with viewer-perspective predicates answered by one reversed
//! lookup each.

use vstd::prelude::*;

use crate::map::UserMap;
use crate::sharding::Sharding;
use crate::Uid;

verus! {

/// A pair of directed relations over user ids: `follows` and `blocks`.
/// An edge `(p, t)` in `follows` means "p follows t"; in `blocks`,
/// "p blocks t".
pub struct Relationships {
    pub blocks: UserMap,
    pub follows: UserMap,
}

impl Relationships {
    /// Both maps are well-formed.
    pub open spec fn wf(self) -> bool {
        self.blocks.wf() && self.follows.wf()
    }

    /// Builds an empty graph with the given shard count for both maps.
    pub fn new(sharding: Sharding) -> (r: Self)
        ensures
            r.wf(),
            r.blocks.spec_len() == 0,
            r.follows.spec_len() == 0,
            forall|p: u32, t: u32| !r.blocks.spec_contains(p, t),
            forall|p: u32, t: u32| !r.follows.spec_contains(p, t),
    {
        Relationships { blocks: UserMap::new(sharding), follows: UserMap::new(sharding) }
    }

    /// Whether `target` blocks `principal`: one reversed lookup on the
    /// blocks map.
    pub fn is_blocked_by(&self, principal: Uid, target: Uid) -> (r: bool)
        requires
            self.wf(),
        ensures
            r == self.blocks.spec_contains(target, principal),
    {
        self.blocks.contains(target, principal)
    }

    /// Whether `principal` blocks `target` and `target` follows
    /// `principal` back.
    pub fn is_mutual(&self, principal: Uid, target: Uid) -> (r: bool)
        requires
            self.wf(),
        ensures
            r == (self.blocks.spec_contains(principal, target) && self.follows.spec_contains(
                target,
                principal,
            )),
    {
        self.blocks.contains(principal, target) && self.follows.contains(target, principal)
    }

    /// Whether `target` follows `principal`: one reversed lookup on the
    /// follows map.
    pub fn is_followed_by(&self, principal: Uid, target: Uid) -> (r: bool)
        requires
            self.wf(),
        ensures
            r == self.follows.spec_contains(target, principal),
    {
        self.follows.contains(target, principal)
    }
}

} // verus!
