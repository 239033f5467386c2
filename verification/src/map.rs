//! A sharded directed relation over user ids.
//!
//! A subject's low bits select a shard; its high bits select a slot
//! inside that shard, whose sorted list holds the subject's targets.
//! The map keeps a count of all stored edges that always equals the sum
//! of the list lengths.

use vstd::prelude::*;

use crate::shard::{list_sorted, Shard};
use crate::sharding::Sharding;
use crate::sorting::{sort_triples, Triple};
use crate::Uid;

verus! {

/// The number of targets stored in the first `n` slots of a shard.
pub open spec fn len_sum(s: Shard, n: int) -> int
    decreases n,
{
    if n <= 0 {
        0
    } else {
        len_sum(s, n - 1) + s.slot_len(n - 1)
    }
}

/// The number of targets stored in a shard.
pub open spec fn shard_edges(s: Shard) -> int {
    len_sum(s, s.slots().len() as int)
}

/// The number of targets stored in the first `k` shards.
pub open spec fn map_edges(shards: Seq<Shard>, k: int) -> int
    decreases k,
{
    if k <= 0 {
        0
    } else {
        map_edges(shards, k - 1) + shard_edges(shards[k - 1])
    }
}

/// Slot sums are never negative.
proof fn lemma_len_sum_nonneg(s: Shard, n: int)
    ensures
        len_sum(s, n) >= 0,
    decreases n,
{
    if n > 0 {
        lemma_len_sum_nonneg(s, n - 1);
    }
}

/// One slot's length is at most the sum over any range covering it.
proof fn lemma_slot_len_le_sum(s: Shard, index: int, n: int)
    requires
        0 <= index < n,
    ensures
        s.slot_len(index) <= len_sum(s, n),
    decreases n,
{
    lemma_len_sum_nonneg(s, index);
    if index < n - 1 {
        lemma_slot_len_le_sum(s, index, n - 1);
    }
}

/// Summing over a longer range never shrinks the sum.
proof fn lemma_len_sum_mono(s: Shard, n1: int, n2: int)
    requires
        n1 <= n2,
    ensures
        len_sum(s, n1) <= len_sum(s, n2),
    decreases n2 - n1,
{
    if n1 < n2 {
        lemma_len_sum_mono(s, n1, n2 - 1);
    }
}

/// Extending the summed range past the stored slots adds nothing.
proof fn lemma_len_sum_past_end(s: Shard, n: int)
    requires
        n >= s.slots().len(),
    ensures
        len_sum(s, n) == shard_edges(s),
    decreases n,
{
    if n > s.slots().len() {
        assert(s.slot_len(n - 1) == 0);
        lemma_len_sum_past_end(s, n - 1);
    }
}

/// When two shards agree on every slot length but one, their sums
/// differ by that slot's change.
proof fn lemma_len_sum_delta(pre: Shard, post: Shard, index: int, delta: int, n: int)
    requires
        n >= 0,
        forall|j: int| j != index ==> #[trigger] post.slot_len(j) == pre.slot_len(j),
        post.slot_len(index) == pre.slot_len(index) + delta,
    ensures
        len_sum(post, n) == len_sum(pre, n) + (if 0 <= index < n {
            delta
        } else {
            0int
        }),
    decreases n,
{
    if n > 0 {
        lemma_len_sum_delta(pre, post, index, delta, n - 1);
    }
}

/// A single-slot change moves a shard's edge count by its delta.
proof fn lemma_shard_edges_delta(pre: Shard, post: Shard, index: int, delta: int)
    requires
        index >= 0,
        forall|j: int| j != index ==> #[trigger] post.slot_len(j) == pre.slot_len(j),
        post.slot_len(index) == pre.slot_len(index) + delta,
    ensures
        shard_edges(post) == shard_edges(pre) + delta,
{
    let n = if pre.slots().len() >= post.slots().len() {
        pre.slots().len() as int
    } else {
        post.slots().len() as int
    };
    let m = if n > index + 1 {
        n
    } else {
        index + 1
    };
    lemma_len_sum_past_end(pre, m);
    lemma_len_sum_past_end(post, m);
    lemma_len_sum_delta(pre, post, index, delta, m);
}

/// Replacing one shard moves the map's edge count by that shard's
/// change.
proof fn lemma_map_edges_update(shards: Seq<Shard>, i: int, post: Shard, k: int)
    requires
        0 <= i < shards.len(),
        k <= shards.len(),
    ensures
        map_edges(shards.update(i, post), k) == map_edges(shards, k) + (if i < k {
            shard_edges(post) - shard_edges(shards[i])
        } else {
            0int
        }),
    decreases k,
{
    if k > 0 {
        lemma_map_edges_update(shards, i, post, k - 1);
        if i == k - 1 {
            assert(shards.update(i, post)[k - 1] == post);
        } else {
            assert(shards.update(i, post)[k - 1] == shards[k - 1]);
        }
    }
}

/// Edge counts are never negative.
proof fn lemma_map_edges_nonneg(shards: Seq<Shard>, k: int)
    requires
        forall|j: int| 0 <= j < shards.len() ==> shard_edges(#[trigger] shards[j]) >= 0,
        k <= shards.len(),
    ensures
        map_edges(shards, k) >= 0,
    decreases k,
{
    if k > 0 {
        lemma_map_edges_nonneg(shards, k - 1);
    }
}

/// One shard's edges never exceed the whole map's.
proof fn lemma_shard_edges_le_map(shards: Seq<Shard>, i: int, k: int)
    requires
        0 <= i < k <= shards.len(),
        forall|j: int| 0 <= j < shards.len() ==> shard_edges(#[trigger] shards[j]) >= 0,
    ensures
        shard_edges(shards[i]) <= map_edges(shards, k),
    decreases k,
{
    if i < k - 1 {
        lemma_shard_edges_le_map(shards, i, k - 1);
    } else {
        lemma_map_edges_nonneg(shards, k - 1);
    }
}

/// A map of empty shards stores nothing.
proof fn lemma_map_edges_empty(shards: Seq<Shard>, k: int)
    requires
        forall|j: int| 0 <= j < shards.len() ==> (#[trigger] shards[j]).slots().len() == 0,
        k <= shards.len(),
    ensures
        map_edges(shards, k) == 0,
    decreases k,
{
    if k > 0 {
        lemma_map_edges_empty(shards, k - 1);
        assert(shard_edges(shards[k - 1]) == 0);
    }
}

/// Two subjects that agree on shard and slot are the same subject.
proof fn lemma_find_injective(p1: u32, p2: u32, bits: u32, mask: u32)
    requires
        bits < 32,
        mask == (1u32 << bits) - 1,
        p1 & mask == p2 & mask,
        p1 >> bits == p2 >> bits,
    ensures
        p1 == p2,
{
    assert((p1 & mask == p2 & mask && p1 >> bits == p2 >> bits && bits < 32 && mask == (((1u32
        << bits) - 1) as u32)) ==> p1 == p2) by (bit_vector);
}

/// Masking a subject never exceeds the mask itself.
proof fn lemma_shard_index_bound(u: u32, mask: u32)
    ensures
        (u & mask) <= mask,
{
    assert((u & mask) <= mask) by (bit_vector);
}

/// A shifted subject leaves room in a `usize`.
proof fn lemma_slot_index_bound(u: u32, bits: u32)
    requires
        1 <= bits < 32,
    ensures
        (u >> bits) < 0x8000_0000u32,
{
    assert((1 <= bits && bits < 32) ==> (u >> bits) < 0x8000_0000u32) by (bit_vector);
}

/// A lock-striped directed many-to-many relation over user ids.
pub struct UserMap {
    len: usize,
    shard_bits: u32,
    shard_mask: u32,
    shards: Vec<Shard>,
}

impl UserMap {
    /// Whether the edge `principal -> target` is stored.
    pub closed spec fn spec_contains(self, principal: u32, target: u32) -> bool {
        self.shards@[(principal & self.shard_mask) as int].has_target(
            (principal >> self.shard_bits) as int,
            target,
        )
    }

    /// The stored edge count.
    pub closed spec fn spec_len(self) -> int {
        self.len as int
    }

    /// The number of shards.
    pub closed spec fn spec_shard_count(self) -> int {
        self.shards@.len() as int
    }

    /// Shard selection is consistent, every shard is well-formed, and
    /// the edge counter equals the number of stored edges.
    pub closed spec fn wf(self) -> bool {
        &&& 1 <= self.shard_bits <= 12
        &&& self.shard_mask == (1u32 << self.shard_bits) - 1
        &&& self.shards@.len() == (1u32 << self.shard_bits)
        &&& forall|i: int| 0 <= i < self.shards@.len() ==> (#[trigger] self.shards@[i]).wf()
        &&& self.len == map_edges(self.shards@, self.shards@.len() as int)
    }

    /// Builds an empty map with the given shard count.
    pub fn new(sharding: Sharding) -> (r: Self)
        ensures
            r.wf(),
            r.spec_len() == 0,
            forall|p: u32, t: u32| !r.spec_contains(p, t),
    {
        let count = sharding.count();
        let bits = sharding.bits();
        let mask = sharding.mask();
        let mut shards: Vec<Shard> = Vec::new();
        let mut i: usize = 0;
        while i < count
            invariant
                0 <= i <= count,
                shards@.len() == i,
                forall|j: int|
                    0 <= j < i ==> (#[trigger] shards@[j]).wf() && shards@[j].slots().len() == 0,
            decreases count - i,
        {
            shards.push(Shard::new());
            i = i + 1;
        }
        let r = UserMap { len: 0, shard_bits: bits, shard_mask: mask, shards };
        proof {
            assert(1usize << sharding.spec_bits() == 1u32 << sharding.spec_bits()) by {
                let bb = sharding.spec_bits();
                assert(1 <= bb <= 12 ==> (1usize << bb) == (1u32 << bb) as usize) by (bit_vector);
            }
            lemma_map_edges_empty(r.shards@, r.shards@.len() as int);
            assert forall|p: u32, t: u32| !r.spec_contains(p, t) by {
                lemma_shard_index_bound(p, mask);
                let s = (p & mask) as int;
                assert(r.shards@[s].slots().len() == 0);
            }
        }
        r
    }

    /// The shard and slot of a subject.
    fn find(&self, user: Uid) -> (r: (usize, usize))
        requires
            self.wf(),
        ensures
            r.0 == (user & self.shard_mask) as int,
            r.1 == (user >> self.shard_bits) as int,
            r.0 < self.shards@.len(),
            r.1 < usize::MAX,
    {
        proof {
            lemma_shard_index_bound(user, self.shard_mask);
            lemma_slot_index_bound(user, self.shard_bits);
        }
        ((user & self.shard_mask) as usize, (user >> self.shard_bits) as usize)
    }

    /// The number of stored edges.
    pub fn len(&self) -> (r: usize)
        ensures
            r == self.spec_len(),
    {
        self.len
    }

    /// Whether no edge is stored.
    pub fn is_empty(&self) -> (r: bool)
        ensures
            r == (self.spec_len() == 0),
    {
        self.len == 0
    }

    /// Whether the edge `principal -> target` is stored.
    pub fn contains(&self, principal: Uid, target: Uid) -> (r: bool)
        requires
            self.wf(),
        ensures
            r == self.spec_contains(principal, target),
    {
        let (s, idx) = self.find(principal);
        proof {
            assert(self.shards@[s as int].wf());
        }
        match self.shards[s].get(idx) {
            Some(targets) => {
                proof {
                    assert(targets@ == self.shards@[s as int].slots()[idx as int]);
                    assert(list_sorted(self.shards@[s as int].slots()[idx as int]));
                }
                binary_search_contains(targets, target)
            },
            None => false,
        }
    }

    /// Stores the edge `principal -> target`; storing a present edge is
    /// a no-op.
    pub fn add(&mut self, principal: Uid, target: Uid)
        requires
            old(self).wf(),
            old(self).spec_len() < usize::MAX,
        ensures
            final(self).wf(),
            forall|p: u32, t: u32| #[trigger]
                final(self).spec_contains(p, t) <==> old(self).spec_contains(p, t) || (p
                    == principal && t == target),
            final(self).spec_len() == old(self).spec_len() + (if old(self).spec_contains(
                principal,
                target,
            ) {
                0int
            } else {
                1int
            }),
    {
        let ghost pre = *self;
        let (s, idx) = self.find(principal);
        let ghost preshard = self.shards@[s as int];
        let shard = vstd::std_specs::vec::vec_index_mut(&mut self.shards, s);
        let inserted = shard.insert(idx, target);
        if inserted {
            self.len = self.len + 1;
        }
        proof {
            self.lemma_after_shard_change(pre, s as int, idx as int, principal, target, true,
                inserted);
        }
    }

    /// Removes the edge `principal -> target`; removing an absent edge
    /// is a no-op.
    pub fn remove(&mut self, principal: Uid, target: Uid)
        requires
            old(self).wf(),
        ensures
            final(self).wf(),
            forall|p: u32, t: u32| #[trigger]
                final(self).spec_contains(p, t) <==> old(self).spec_contains(p, t) && !(p
                    == principal && t == target),
            final(self).spec_len() == old(self).spec_len() - (if old(self).spec_contains(
                principal,
                target,
            ) {
                1int
            } else {
                0int
            }),
    {
        let ghost pre = *self;
        let (s, idx) = self.find(principal);
        let shard = vstd::std_specs::vec::vec_index_mut(&mut self.shards, s);
        proof {
            let m = if pre.shards@[s as int].slots().len() as int > idx as int + 1 {
                pre.shards@[s as int].slots().len() as int
            } else {
                idx as int + 1
            };
            lemma_slot_len_le_sum(pre.shards@[s as int], idx as int, m);
            lemma_len_sum_past_end(pre.shards@[s as int], m);
            assert(forall|j: int|
                0 <= j < pre.shards@.len() ==> shard_edges(#[trigger] pre.shards@[j]) >= 0) by {
                assert forall|j: int|
                    0 <= j < pre.shards@.len() implies shard_edges(#[trigger] pre.shards@[j])
                    >= 0 by {
                    lemma_len_sum_nonneg(pre.shards@[j], pre.shards@[j].slots().len() as int);
                }
            }
            lemma_shard_edges_le_map(pre.shards@, s as int, pre.shards@.len() as int);
            assert(pre.shards@[s as int].slot_len(idx as int) <= pre.len as int);
        }
        let removed = shard.delete(idx, target);
        if removed {
            proof {
                assert(pre.shards@[s as int].has_target(idx as int, target));
                assert(pre.shards@[s as int].slot_len(idx as int) >= 1) by {
                    let sl = pre.shards@[s as int].slots()[idx as int];
                    assert(sl.contains(target));
                    let a = choose|a: int| 0 <= a < sl.len() && sl[a] == target;
                }
                assert(pre.shards@[s as int].slot_len(idx as int) <= pre.len as int);
                assert(pre.len >= 1);
            }
            self.len = self.len - 1;
        }
        proof {
            self.lemma_after_shard_change(pre, s as int, idx as int, principal, target, false,
                removed);
        }
    }

    /// Stores every edge from `principal` to a target of the batch,
    /// deduplicated exactly as repeated `add` calls would be.
    pub fn add_bulk(&mut self, principal: Uid, targets: Vec<Uid>)
        requires
            old(self).wf(),
            old(self).spec_len() + targets@.len() <= usize::MAX,
        ensures
            final(self).wf(),
            forall|p: u32, t: u32| #[trigger]
                final(self).spec_contains(p, t) <==> old(self).spec_contains(p, t) || (p
                    == principal && targets@.contains(t)),
            final(self).spec_len() <= old(self).spec_len() + targets@.len(),
            final(self).spec_len() >= old(self).spec_len(),
    {
        let ghost pre = *self;
        let incoming = sort_dedup(targets);
        let (s, idx) = self.find(principal);
        proof {
            let m = if pre.shards@[s as int].slots().len() as int > idx as int + 1 {
                pre.shards@[s as int].slots().len() as int
            } else {
                idx as int + 1
            };
            lemma_slot_len_le_sum(pre.shards@[s as int], idx as int, m);
            lemma_len_sum_past_end(pre.shards@[s as int], m);
            assert(forall|j: int|
                0 <= j < pre.shards@.len() ==> shard_edges(#[trigger] pre.shards@[j]) >= 0) by {
                assert forall|j: int|
                    0 <= j < pre.shards@.len() implies shard_edges(#[trigger] pre.shards@[j])
                    >= 0 by {
                    lemma_len_sum_nonneg(pre.shards@[j], pre.shards@[j].slots().len() as int);
                }
            }
            lemma_shard_edges_le_map(pre.shards@, s as int, pre.shards@.len() as int);
            assert(pre.shards@[s as int].slot_len(idx as int) <= pre.len as int);
        }
        proof {
            assert(incoming@.len() <= targets@.len());
        }
        let shard = vstd::std_specs::vec::vec_index_mut(&mut self.shards, s);
        let added = shard.merge(idx, incoming.as_slice());
        self.len = self.len + added;
        proof {
            let preshard = pre.shards@[s as int];
            let postshard = self.shards@[s as int];
            assert(self.shards@ == pre.shards@.update(s as int, postshard));
            lemma_shard_edges_delta(preshard, postshard, idx as int, added as int);
            lemma_map_edges_update(pre.shards@, s as int, postshard, pre.shards@.len() as int);
            assert(final(self).wf());
            assert forall|p: u32, t: u32| #[trigger]
                final(self).spec_contains(p, t) <==> pre.spec_contains(p, t) || (p == principal
                    && targets@.contains(t)) by {
                lemma_shard_index_bound(p, pre.shard_mask);
                assert(incoming@.contains(t) == targets@.contains(t));
                let ps = (p & pre.shard_mask) as int;
                let pi = (p >> pre.shard_bits) as int;
                if ps == s as int {
                    assert(self.shards@[ps] == postshard);
                    if pi == idx as int {
                        lemma_find_injective(p, principal, pre.shard_bits, pre.shard_mask);
                        assert(postshard.has_target(idx as int, t) <==> preshard.has_target(
                            idx as int,
                            t,
                        ) || incoming@.contains(t));
                    } else {
                        assert(postshard.has_target(pi, t) <==> preshard.has_target(pi, t));
                    }
                } else {
                    assert(self.shards@[ps] == pre.shards@[ps]);
                }
            }
        }
    }

    /// Lifts one shard's change to the whole map: membership and the
    /// edge counter.
    proof fn lemma_after_shard_change(
        &self,
        pre: UserMap,
        s: int,
        idx: int,
        principal: u32,
        target: u32,
        adding: bool,
        changed: bool,
    )
        requires
            pre.wf(),
            0 <= s < pre.shards@.len(),
            s == (principal & pre.shard_mask) as int,
            idx == (principal >> pre.shard_bits) as int,
            self.shard_bits == pre.shard_bits,
            self.shard_mask == pre.shard_mask,
            self.shards@ == pre.shards@.update(s, self.shards@[s]),
            self.shards@.len() == pre.shards@.len(),
            self.shards@[s].wf(),
            changed == (if adding {
                !pre.shards@[s].has_target(idx, target)
            } else {
                pre.shards@[s].has_target(idx, target)
            }),
            forall|t: u32|
                self.shards@[s].has_target(idx, t) <==> (if adding {
                    pre.shards@[s].has_target(idx, t) || t == target
                } else {
                    pre.shards@[s].has_target(idx, t) && t != target
                }),
            forall|j: int, t: u32|
                j != idx ==> (#[trigger] self.shards@[s].has_target(j, t)
                    <==> pre.shards@[s].has_target(j, t)),
            self.shards@[s].slot_len(idx) == pre.shards@[s].slot_len(idx) + (if changed {
                if adding {
                    1int
                } else {
                    -1int
                }
            } else {
                0int
            }),
            forall|j: int|
                j != idx ==> #[trigger] self.shards@[s].slot_len(j) == pre.shards@[s].slot_len(j),
            self.len == pre.len + (if changed {
                if adding {
                    1int
                } else {
                    -1int
                }
            } else {
                0int
            }),
        ensures
            self.wf(),
            forall|p: u32, t: u32| #[trigger]
                self.spec_contains(p, t) <==> (if adding {
                    pre.spec_contains(p, t) || (p == principal && t == target)
                } else {
                    pre.spec_contains(p, t) && !(p == principal && t == target)
                }),
            self.spec_len() == pre.spec_len() + (if changed {
                if adding {
                    1int
                } else {
                    -1int
                }
            } else {
                0int
            }),
            changed == (if adding {
                !pre.spec_contains(principal, target)
            } else {
                pre.spec_contains(principal, target)
            }),
    {
        let delta: int = if changed {
            if adding {
                1
            } else {
                -1
            }
        } else {
            0
        };
        lemma_shard_edges_delta(pre.shards@[s], self.shards@[s], idx, delta);
        lemma_map_edges_update(pre.shards@, s, self.shards@[s], pre.shards@.len() as int);
        assert(self.wf());
        assert forall|p: u32, t: u32| #[trigger]
            self.spec_contains(p, t) <==> (if adding {
                pre.spec_contains(p, t) || (p == principal && t == target)
            } else {
                pre.spec_contains(p, t) && !(p == principal && t == target)
            }) by {
            lemma_shard_index_bound(p, pre.shard_mask);
            let ps = (p & pre.shard_mask) as int;
            let pi = (p >> pre.shard_bits) as int;
            if ps == s {
                assert(self.shards@[ps] == self.shards@[s]);
                if pi == idx {
                    lemma_find_injective(p, principal, pre.shard_bits, pre.shard_mask);
                }
            } else {
                assert(self.shards@[ps] == pre.shards@[ps]);
            }
        }
    }
}


/// The membership effect of storing one edge `subject -> x` on a query
/// `(p, t)`.
pub open spec fn one_add_effect(cur: bool, p: u32, t: u32, subject: u32, x: u32) -> bool {
    cur || (p == subject && t == x)
}

/// The membership effect of storing edges to each target in turn.
pub open spec fn fold_add_effects(cur: bool, p: u32, t: u32, subject: u32, xs: Seq<u32>) -> bool
    decreases xs.len(),
{
    if xs.len() == 0 {
        cur
    } else {
        fold_add_effects(one_add_effect(cur, p, t, subject, xs[0]), p, t, subject, xs.drop_first())
    }
}

/// Bulk equivalence: storing a batch of targets one by one has the same
/// membership effect as one bulk call, whose `ensures` states membership
/// as `targets.contains`; together with the map invariant the edge count
/// equals the number of distinct stored edges either way.
pub proof fn lemma_bulk_equivalence(cur: bool, p: u32, t: u32, subject: u32, xs: Seq<u32>)
    ensures
        fold_add_effects(cur, p, t, subject, xs) == (cur || (p == subject && xs.contains(t))),
    decreases xs.len(),
{
    if xs.len() > 0 {
        lemma_bulk_equivalence(
            one_add_effect(cur, p, t, subject, xs[0]),
            p,
            t,
            subject,
            xs.drop_first(),
        );
        assert(xs.contains(t) <==> (xs[0] == t || xs.drop_first().contains(t))) by {
            if xs.drop_first().contains(t) {
                let i = choose|i: int|
                    0 <= i < xs.drop_first().len() && xs.drop_first()[i] == t;
                assert(xs[i + 1] == t);
            }
            if xs.contains(t) {
                let i = choose|i: int| 0 <= i < xs.len() && xs[i] == t;
                if i > 0 {
                    assert(xs.drop_first()[i - 1] == t);
                }
            }
        }
    }
}

/// Inverse: storing an absent edge and then removing it restores every
/// membership answer, given the membership effects `add` and `remove`
/// state.
pub proof fn lemma_add_remove_inverse(m0: UserMap, m1: UserMap, m2: UserMap, s: u32, t: u32)
    requires
        !m0.spec_contains(s, t),
        forall|p: u32, q: u32| #[trigger]
            m1.spec_contains(p, q) <==> m0.spec_contains(p, q) || (p == s && q == t),
        forall|p: u32, q: u32| #[trigger]
            m2.spec_contains(p, q) <==> m1.spec_contains(p, q) && !(p == s && q == t),
    ensures
        forall|p: u32, q: u32| #[trigger] m2.spec_contains(p, q) <==> m0.spec_contains(p, q),
{
    assert forall|p: u32, q: u32| #[trigger] m2.spec_contains(p, q) <==> m0.spec_contains(
        p,
        q,
    ) by {
        assert(m1.spec_contains(p, q) <==> m0.spec_contains(p, q) || (p == s && q == t));
    }
}

impl UserMap {
    /// A one-line breakdown of the shards' heap use, for display: one
    /// observed report per shard, under a fixed label.
    pub fn render_stats(&self) -> (r: String)
        requires
            self.wf(),
        ensures
            exists|st: crate::stats::Stats|
                r@ == crate::stats::spec_stats_render(st) && st.count == self.spec_shard_count()
                    && st.label@ == "shard slots"@,
    {
        let mut stats = crate::stats::Stats::new(
            "shard slots",
            crate::usage::cap_mul(self.shards.len(), core::mem::size_of::<Shard>()),
        );
        let n = self.shards.len();
        let mut i: usize = 0;
        proof {
            assert(1 <= self.shard_bits <= 12);
            assert(n <= 4096) by {
                let bb = self.shard_bits;
                assert(1 <= bb <= 12 ==> (1u32 << bb) <= 4096) by (bit_vector);
            }
        }
        while i < n
            invariant
                0 <= i <= n,
                n <= 4096,
                n == self.shards@.len(),
                stats.count == i,
                stats.label@ == "shard slots"@,
            decreases n - i,
        {
            stats.observe(&self.shards[i]);
            i = i + 1;
        }
        stats.render()
    }
}

impl Default for UserMap {
    /// An empty map with a moderate shard count.
    fn default() -> (r: UserMap)
        ensures
            r.wf(),
            r.spec_len() == 0,
            forall|p: u32, t: u32| !r.spec_contains(p, t),
    {
        UserMap::new(Sharding::S64)
    }
}

/// Whether a strictly sorted list holds `x`, by binary search.
fn binary_search_contains(v: &[u32], x: u32) -> (r: bool)
    requires
        list_sorted(v@),
    ensures
        r == v@.contains(x),
{
    let mut lo: usize = 0;
    let mut hi: usize = v.len();
    while lo < hi
        invariant
            0 <= lo <= hi <= v@.len(),
            list_sorted(v@),
            forall|i: int| 0 <= i < lo ==> #[trigger] v@[i] < x,
            forall|i: int| hi <= i < v@.len() ==> #[trigger] v@[i] > x,
        decreases hi - lo,
    {
        let mid = lo + (hi - lo) / 2;
        if v[mid] < x {
            proof {
                assert forall|i: int| 0 <= i < mid implies #[trigger] v@[i] < x by {
                    assert(v@[i] < v@[mid as int]);
                }
            }
            lo = mid + 1;
        } else if v[mid] > x {
            proof {
                assert forall|i: int| mid < i < v@.len() implies #[trigger] v@[i] > x by {
                    assert(v@[i] > v@[mid as int]);
                }
            }
            hi = mid;
        } else {
            proof {
                assert(v@.contains(x)) by {
                    assert(v@[mid as int] == x);
                }
            }
            return true;
        }
    }
    proof {
        if v@.contains(x) {
            let i = choose|i: int| 0 <= i < v@.len() && v@[i] == x;
        }
    }
    false
}

/// Sorts a batch of targets and drops duplicates: the result is
/// strictly ascending and holds exactly the batch's values.
fn sort_dedup(targets: Vec<Uid>) -> (r: Vec<Uid>)
    ensures
        list_sorted(r@),
        forall|t: u32| #[trigger] r@.contains(t) <==> targets@.contains(t),
        r@.len() <= targets@.len(),
{
    broadcast use vstd::seq_lib::group_to_multiset_ensures;

    let n = targets.len();
    let mut triples: Vec<Triple> = Vec::new();
    let mut i: usize = 0;
    while i < n
        invariant
            0 <= i <= n,
            n == targets@.len(),
            triples@.len() == i,
            forall|k: int|
                0 <= k < i ==> #[trigger] triples@[k] == (0u32, targets@[k] as u64, 0usize),
        decreases n - i,
    {
        triples.push((0, targets[i] as u64, 0));
        i = i + 1;
    }
    let ghost init = triples@;
    sort_triples(&mut triples);
    proof {
        vstd::seq_lib::to_multiset_len(triples@);
        vstd::seq_lib::to_multiset_len(init);
        assert(triples@.len() == n);
        assert forall|k: int| 0 <= k < n implies (#[trigger] triples@[k]).1 <= u32::MAX
            && triples@[k].0 == 0 && targets@.contains(triples@[k].1 as u32) by {
            assert(triples@.to_multiset().count(triples@[k]) > 0) by {
                assert(triples@.contains(triples@[k]));
            }
            assert(init.contains(triples@[k]));
            let q = choose|q: int| 0 <= q < init.len() && init[q] == triples@[k];
            assert(targets@[q] == triples@[k].1 as u32);
        }
        assert forall|t: u32| #[trigger]
            targets@.contains(t) implies exists|k: int|
            0 <= k < n && (#[trigger] triples@[k]).1 == t as u64 by {
            let q = choose|q: int| 0 <= q < targets@.len() && targets@[q] == t;
            assert(init[q] == (0u32, t as u64, 0usize));
            assert(init.contains(init[q]));
            assert(init.to_multiset().count(init[q]) > 0);
            assert(triples@.contains(init[q]));
            let k = choose|k: int| 0 <= k < triples@.len() && triples@[k] == init[q];
        }
    }
    let mut out: Vec<u32> = Vec::new();
    let mut k: usize = 0;
    while k < n
        invariant
            0 <= k <= n,
            n == triples@.len(),
            crate::sorting::triples_sorted(triples@),
            forall|a: int| 0 <= a < n ==> (#[trigger] triples@[a]).1 <= u32::MAX,
            forall|a: int| 0 <= a < n ==> (#[trigger] triples@[a]).0 == 0,
            forall|a: int, b: int|
                0 <= a < b < out@.len() ==> #[trigger] out@[a] < #[trigger] out@[b],
            forall|a: int|
                0 <= a < out@.len() ==> exists|b: int|
                    0 <= b < k && (#[trigger] triples@[b]).1 == (#[trigger] out@[a]) as u64,
            forall|b: int|
                0 <= b < k ==> out@.contains((#[trigger] triples@[b]).1 as u32),
            out@.len() > 0 ==> k > 0 && out@.last() as u64 == triples@[k - 1].1,
            out@.len() <= k,
        decreases n - k,
    {
        let v = triples[k].1 as u32;
        let ghost out_before = out@;
        let take_it = out.len() == 0 || {
            let last = out[out.len() - 1];
            last != v
        };
        if take_it {
            proof {
                if out@.len() > 0 {
                    assert(crate::sorting::triple_le(triples@[k - 1], triples@[k as int]));
                    assert(triples@[k - 1].0 == 0 && triples@[k as int].0 == 0);
                    assert(out@.last() as u64 <= triples@[k as int].1);
                    assert(forall|a: int|
                        0 <= a < out@.len() ==> #[trigger] out@[a] <= out@.last() || a
                            == out@.len() - 1);
                }
            }
            out.push(v);
        }
        proof {
            if !take_it {
                assert(out@.last() == v);
                assert(out@.contains(triples@[k as int].1 as u32)) by {
                    assert(out@[out@.len() - 1] == v);
                }
            } else {
                assert(out@.last() == v);
                assert(out@.contains(triples@[k as int].1 as u32)) by {
                    assert(out@[out@.len() - 1] == v);
                }
                assert forall|b: int|
                    0 <= b < k implies out@.contains((#[trigger] triples@[b]).1 as u32) by {
                    assert(out_before.contains(triples@[b].1 as u32));
                    let a = choose|a: int|
                        0 <= a < out_before.len() && out_before[a] == triples@[b].1 as u32;
                    assert(out@[a] == triples@[b].1 as u32);
                }
            }
        }
        k = k + 1;
    }
    proof {
        assert forall|t: u32| #[trigger] out@.contains(t) implies targets@.contains(t) by {
            let a = choose|a: int| 0 <= a < out@.len() && out@[a] == t;
            let b = choose|b: int| 0 <= b < n && (#[trigger] triples@[b]).1 == out@[a] as u64;
            assert(targets@.contains(triples@[b].1 as u32));
        }
        assert forall|t: u32| #[trigger] targets@.contains(t) implies out@.contains(t) by {
            let b = choose|b: int| 0 <= b < n && (#[trigger] triples@[b]).1 == t as u64;
            assert(out@.contains(triples@[b].1 as u32));
        }
    }
    out
}

} // verus!
