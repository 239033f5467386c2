//! One slot of the adjacency table: a vector of sorted, deduplicated
//! target lists, supporting binary-search insert and delete and a
//! sorted in-place merge.

use vstd::prelude::*;
use vstd::std_specs::vec::vec_index_mut;

use crate::stats::{HeapUsage, HeapWaste};
use crate::usage::{cap_mul, saturating_add_usize, ReportUsage, Usage};
use crate::Uid;

verus! {

/// Relies on `Vec::reserve_exact`: reserving capacity leaves the
/// contents unchanged.
#[verifier::external_body]
fn vec_reserve_exact<T>(v: &mut Vec<T>, additional: usize)
    ensures
        final(v)@ == old(v)@,
{
    v.reserve_exact(additional)
}

/// A list of targets in strictly ascending order: sorted and free of
/// duplicates.
pub open spec fn list_sorted(s: Seq<u32>) -> bool {
    forall|i: int, j: int| 0 <= i < j < s.len() ==> #[trigger] s[i] < #[trigger] s[j]
}

/// One partition of a user map: a dense array of target lists, indexed
/// by the high bits of a subject uid.
pub struct Shard(Vec<Vec<Uid>>);

impl Shard {
    /// The target lists, by slot.
    pub closed spec fn slots(self) -> Seq<Seq<u32>> {
        Seq::new(self.0@.len(), |i: int| self.0@[i]@)
    }

    /// Every list is sorted and deduplicated.
    pub open spec fn wf(self) -> bool {
        forall|i: int| 0 <= i < self.slots().len() ==> list_sorted(#[trigger] self.slots()[i])
    }

    /// Whether the list at `index` holds `target`; absent slots hold
    /// nothing.
    pub open spec fn has_target(self, index: int, target: u32) -> bool {
        0 <= index < self.slots().len() && self.slots()[index].contains(target)
    }

    /// The number of targets stored at `index`; absent slots count zero.
    pub open spec fn slot_len(self, index: int) -> int {
        if 0 <= index < self.slots().len() {
            self.slots()[index].len() as int
        } else {
            0
        }
    }

    /// An empty shard with no slots.
    pub fn new() -> (r: Self)
        ensures
            r.wf(),
            r.slots().len() == 0,
    {
        Shard(Vec::new())
    }

    /// A read-only view of the list at `index`, when the slot exists.
    pub fn get(&self, index: usize) -> (r: Option<&[Uid]>)
        ensures
            match r {
                Some(s) => index < self.slots().len() && s@ == self.slots()[index as int],
                None => index >= self.slots().len(),
            },
    {
        if index < self.0.len() {
            Some(self.0[index].as_slice())
        } else {
            None
        }
    }

    /// Grows the slot array with empty lists up to and including
    /// `index`.
    fn grow_to(&mut self, index: usize)
        requires
            index < usize::MAX,
        ensures
            final(self).slots().len() == (if index < old(self).slots().len() {
                old(self).slots().len() as int
            } else {
                index + 1
            }),
            forall|j: int|
                0 <= j < final(self).slots().len()
                    ==> #[trigger] final(self).slots()[j] == (if j < old(self).slots().len() {
                    old(self).slots()[j]
                } else {
                    Seq::<u32>::empty()
                }),
    {
        let len = self.0.len();
        if len <= index {
            vec_reserve_exact(&mut self.0, index + 1 - len);
            let mut k = len;
            while k <= index
                invariant
                    index < usize::MAX,
                    len <= k <= index + 1,
                    self.0@.len() == k,
                    forall|j: int| 0 <= j < len ==> #[trigger] self.0@[j] == old(self).0@[j],
                    forall|j: int| len <= j < k ==> (#[trigger] self.0@[j])@ == Seq::<u32>::empty(),
                decreases index + 1 - k,
            {
                self.0.push(Vec::new());
                k = k + 1;
            }
        }
    }

    /// Grows the slot array up to and including `index` with empty
    /// lists, then hands out the list at `index`.
    pub fn entry(&mut self, index: usize) -> (r: &mut Vec<Uid>)
        requires
            index < usize::MAX,
        ensures
            (*r)@ == (if index < old(self).slots().len() {
                old(self).slots()[index as int]
            } else {
                Seq::<u32>::empty()
            }),
            final(self).slots().len() == (if index < old(self).slots().len() {
                old(self).slots().len() as int
            } else {
                index + 1
            }),
            forall|j: int|
                0 <= j < final(self).slots().len() && j != index
                    ==> #[trigger] final(self).slots()[j] == (if j < old(self).slots().len() {
                    old(self).slots()[j]
                } else {
                    Seq::<u32>::empty()
                }),
            final(self).slots()[index as int] == final(r)@,
    {
        self.grow_to(index);
        proof {
            assert(self.0@[index as int]@ == (if index < old(self).slots().len() {
                old(self).slots()[index as int]
            } else {
                Seq::<u32>::empty()
            })) by {
                assert(self.slots()[index as int] == self.0@[index as int]@);
            }
            assert forall|j: int| 0 <= j < self.0@.len() && j != index implies (
            #[trigger] self.0@[j])@ == (if j < old(self).slots().len() {
                old(self).slots()[j]
            } else {
                Seq::<u32>::empty()
            }) by {
                assert(self.slots()[j] == self.0@[j]@);
            }
        }
        vec_index_mut(&mut self.0, index)
    }

    /// Inserts `target` at position `pos` of the list at `index`.
    fn slot_insert_at(&mut self, index: usize, pos: usize, target: u32)
        requires
            index < old(self).slots().len(),
            pos <= old(self).slots()[index as int].len(),
        ensures
            final(self).slots() == old(self).slots().update(
                index as int,
                old(self).slots()[index as int].insert(pos as int, target),
            ),
    {
        let list = vec_index_mut(&mut self.0, index);
        vec_reserve_exact(list, 1);
        list.insert(pos, target);
        proof {
            assert(self.slots() =~= old(self).slots().update(
                index as int,
                old(self).slots()[index as int].insert(pos as int, target),
            ));
        }
    }

    /// Removes position `pos` of the list at `index`.
    fn slot_remove_at(&mut self, index: usize, pos: usize)
        requires
            index < old(self).slots().len(),
            pos < old(self).slots()[index as int].len(),
        ensures
            final(self).slots() == old(self).slots().update(
                index as int,
                old(self).slots()[index as int].remove(pos as int),
            ),
    {
        let list = vec_index_mut(&mut self.0, index);
        list.remove(pos);
        proof {
            assert(self.slots() =~= old(self).slots().update(
                index as int,
                old(self).slots()[index as int].remove(pos as int),
            ));
        }
    }

    /// Inserts one target into the sorted list at `index`, growing the
    /// slot array as needed. Returns whether the target was new.
    pub fn insert(&mut self, index: usize, target: Uid) -> (r: bool)
        requires
            old(self).wf(),
            index < usize::MAX,
        ensures
            final(self).wf(),
            r == !old(self).has_target(index as int, target),
            forall|t: u32|
                final(self).has_target(index as int, t) <==> old(self).has_target(index as int, t)
                    || t == target,
            forall|j: int, t: u32|
                j != index ==> (#[trigger] final(self).has_target(j, t) <==> old(self).has_target(
                    j,
                    t,
                )),
            final(self).slot_len(index as int) == old(self).slot_len(index as int) + (if r {
                1int
            } else {
                0int
            }),
            forall|j: int|
                j != index ==> #[trigger] final(self).slot_len(j) == old(self).slot_len(j),
    {
        let ghost pre = *self;
        self.grow_to(index);
        let ghost grown = *self;
        let ghost entry_list = grown.slots()[index as int];
        proof {
            assert(list_sorted(entry_list)) by {
                if index < pre.slots().len() {
                    assert(entry_list == pre.slots()[index as int]);
                } else {
                    assert(entry_list == Seq::<u32>::empty());
                }
            }
            lemma_shard_frame(pre, grown, index as int);
            assert(forall|t: u32|
                grown.has_target(index as int, t) == pre.has_target(index as int, t)) by {
                if index >= pre.slots().len() {
                    lemma_empty_has_nothing(entry_list);
                }
            }
            assert(grown.slot_len(index as int) == pre.slot_len(index as int)) by {
                if index >= pre.slots().len() {
                    assert(entry_list == Seq::<u32>::empty());
                }
            }
        }
        let pos = lower_bound_u32(&self.0[index], target);
        let len = self.0[index].len();
        let present = pos < len && self.0[index][pos] == target;
        proof {
            assert(self.0@[index as int]@ == entry_list);
            if !present {
                assert(!entry_list.contains(target)) by {
                    if entry_list.contains(target) {
                        let a = choose|a: int|
                            0 <= a < entry_list.len() && entry_list[a] == target;
                        if a > pos {
                            assert(entry_list[pos as int] < entry_list[a]);
                            assert(entry_list[pos as int] >= target);
                        }
                    }
                }
            } else {
                assert(entry_list.contains(target)) by {
                    assert(entry_list[pos as int] == target);
                }
            }
        }
        if present {
            return false;
        }
        self.slot_insert_at(index, pos, target);
        proof {
            let newl = entry_list.insert(pos as int, target);
            assert(self.slots()[index as int] == newl);
            assert(forall|a: int|
                0 <= a < newl.len() ==> #[trigger] newl[a] == (if a < pos {
                    entry_list[a]
                } else if a == pos {
                    target
                } else {
                    entry_list[a - 1]
                }));
            assert(list_sorted(newl)) by {
                assert forall|a: int, b: int| 0 <= a < b < newl.len() implies #[trigger] newl[a]
                    < #[trigger] newl[b] by {
                    if a < pos && b == pos {
                        assert(entry_list[a] < target);
                    } else if a == pos && b > pos {
                        assert(entry_list[b - 1] >= target);
                        assert(entry_list[b - 1] != target) by {
                            assert(!entry_list.contains(target));
                            if entry_list[b - 1] == target {
                                assert(entry_list.contains(target));
                            }
                        }
                    }
                }
            }
            assert(forall|t: u32| newl.contains(t) <==> entry_list.contains(t) || t == target)
                by {
                assert forall|t: u32| #[trigger] newl.contains(t) implies entry_list.contains(t)
                    || t == target by {
                    let a = choose|a: int| 0 <= a < newl.len() && newl[a] == t;
                    if a < pos {
                        assert(entry_list[a] == t);
                    } else if a > pos {
                        assert(entry_list[a - 1] == t);
                    }
                }
                assert forall|t: u32|
                    entry_list.contains(t) || t == target implies #[trigger] newl.contains(t) by {
                    if t == target {
                        assert(newl[pos as int] == t);
                    } else {
                        let a = choose|a: int| 0 <= a < entry_list.len() && entry_list[a] == t;
                        if a < pos {
                            assert(newl[a] == t);
                        } else {
                            assert(newl[a + 1] == t);
                        }
                    }
                }
            }
            lemma_shard_frame(grown, *self, index as int);
            assert(forall|j: int|
                0 <= j < self.slots().len() && j != index ==> #[trigger] self.slots()[j]
                    == grown.slots()[j]);
        }
        true
    }

    /// Removes one target from the sorted list at `index`, if both
    /// exist. Returns whether a target was removed.
    pub fn delete(&mut self, index: usize, target: Uid) -> (r: bool)
        requires
            old(self).wf(),
        ensures
            final(self).wf(),
            r == old(self).has_target(index as int, target),
            forall|t: u32|
                final(self).has_target(index as int, t) <==> old(self).has_target(index as int, t)
                    && t != target,
            forall|j: int, t: u32|
                j != index ==> (#[trigger] final(self).has_target(j, t) <==> old(self).has_target(
                    j,
                    t,
                )),
            final(self).slot_len(index as int) == old(self).slot_len(index as int) - (if r {
                1int
            } else {
                0int
            }),
            forall|j: int|
                j != index ==> #[trigger] final(self).slot_len(j) == old(self).slot_len(j),
            final(self).slots().len() == old(self).slots().len(),
    {
        let ghost pre = *self;
        if index >= self.0.len() {
            return false;
        }
        let ghost entry_list = pre.slots()[index as int];
        let pos = lower_bound_u32(&self.0[index], target);
        let len = self.0[index].len();
        let present = pos < len && self.0[index][pos] == target;
        proof {
            assert(self.0@[index as int]@ == entry_list);
            if !present {
                assert(!entry_list.contains(target)) by {
                    if entry_list.contains(target) {
                        let a = choose|a: int|
                            0 <= a < entry_list.len() && entry_list[a] == target;
                        if a > pos {
                            assert(entry_list[pos as int] < entry_list[a]);
                            assert(entry_list[pos as int] >= target);
                        }
                    }
                }
            } else {
                assert(entry_list.contains(target)) by {
                    assert(entry_list[pos as int] == target);
                }
            }
        }
        if !present {
            return false;
        }
        self.slot_remove_at(index, pos);
        proof {
            let newl = entry_list.remove(pos as int);
            assert(self.slots()[index as int] == newl);
            assert(forall|a: int|
                0 <= a < newl.len() ==> #[trigger] newl[a] == (if a < pos {
                    entry_list[a]
                } else {
                    entry_list[a + 1]
                }));
            assert(list_sorted(newl));
            assert(forall|t: u32| newl.contains(t) <==> entry_list.contains(t) && t != target)
                by {
                assert forall|t: u32| #[trigger] newl.contains(t) implies entry_list.contains(t)
                    && t != target by {
                    let a = choose|a: int| 0 <= a < newl.len() && newl[a] == t;
                    if a < pos {
                        assert(entry_list[a] == t);
                        assert(entry_list[a] < entry_list[pos as int]);
                    } else {
                        assert(entry_list[a + 1] == t);
                        assert(entry_list[a + 1] > entry_list[pos as int]);
                    }
                }
                assert forall|t: u32|
                    entry_list.contains(t) && t != target implies #[trigger] newl.contains(t) by {
                    let a = choose|a: int| 0 <= a < entry_list.len() && entry_list[a] == t;
                    if a < pos {
                        assert(newl[a] == t);
                    } else if a > pos {
                        assert(newl[a - 1] == t);
                    }
                }
            }
            lemma_shard_frame(pre, *self, index as int);
            assert(forall|j: int|
                0 <= j < self.slots().len() && j != index ==> #[trigger] self.slots()[j]
                    == pre.slots()[j]);
        }
        true
    }

    /// Merges a sorted, deduplicated slice of targets into the sorted
    /// list at `index`, growing the slot array as needed. Returns the
    /// number of newly added targets.
    pub fn merge(&mut self, index: usize, incoming: &[Uid]) -> (r: usize)
        requires
            old(self).wf(),
            index < usize::MAX,
            list_sorted(incoming@),
            old(self).slot_len(index as int) + incoming@.len() <= usize::MAX,
        ensures
            final(self).wf(),
            forall|t: u32|
                final(self).has_target(index as int, t) <==> old(self).has_target(index as int, t)
                    || incoming@.contains(t),
            forall|j: int, t: u32|
                j != index ==> (#[trigger] final(self).has_target(j, t) <==> old(self).has_target(
                    j,
                    t,
                )),
            final(self).slot_len(index as int) >= old(self).slot_len(index as int),
            r == final(self).slot_len(index as int) - old(self).slot_len(index as int),
            r <= incoming@.len(),
            forall|j: int|
                j != index ==> #[trigger] final(self).slot_len(j) == old(self).slot_len(j),
    {
        let ghost pre = *self;
        self.grow_to(index);
        let ghost grown = *self;
        let ghost entry_list = grown.slots()[index as int];
        proof {
            lemma_shard_frame(pre, grown, index as int);
            assert(list_sorted(entry_list)) by {
                if index < pre.slots().len() {
                    assert(entry_list == pre.slots()[index as int]);
                } else {
                    assert(entry_list == Seq::<u32>::empty());
                }
            }
            assert(grown.slot_len(index as int) == pre.slot_len(index as int)) by {
                if index >= pre.slots().len() {
                    assert(entry_list == Seq::<u32>::empty());
                }
            }
            assert(self.0@[index as int]@ == entry_list);
        }
        let list = vec_index_mut(&mut self.0, index);
        let added = merge_into(list, incoming);
        proof {
            let newl = self.slots()[index as int];
            assert(newl == self.0@[index as int]@);
            assert(self.0@ == grown.0@.update(index as int, self.0@[index as int]));
            assert forall|j: int| 0 <= j < self.slots().len() && j != index implies
                #[trigger] self.slots()[j] == grown.slots()[j] by {
                assert(self.slots()[j] == self.0@[j]@);
                assert(grown.slots()[j] == grown.0@[j]@);
            }
            assert(self.slots().len() == grown.slots().len());
            lemma_shard_frame(grown, *self, index as int);
            assert(newl.to_set() == entry_list.to_set().union(incoming@.to_set()));
            assert(forall|t: u32| #[trigger] newl.contains(t) <==> entry_list.contains(t)
                || incoming@.contains(t)) by {
                assert(forall|t: u32| #[trigger] newl.contains(t) == newl.to_set().contains(t));
                assert(forall|t: u32| #[trigger] entry_list.contains(t) == entry_list.to_set().contains(t));
                assert(forall|t: u32| #[trigger] incoming@.contains(t) == incoming@.to_set().contains(t));
            }
            assert(forall|t: u32|
                final(self).has_target(index as int, t) <==> pre.has_target(index as int, t)
                    || incoming@.contains(t)) by {
                if index >= pre.slots().len() {
                    lemma_empty_has_nothing(entry_list);
                }
            }
        }
        added
    }
}

/// Relies on `Vec::shrink_to_fit`: shrinking capacity leaves the
/// contents unchanged.
#[verifier::external_body]
fn vec_shrink_to_fit<T>(v: &mut Vec<T>)
    ensures
        final(v)@ == old(v)@,
{
    v.shrink_to_fit()
}

/// Merges a sorted, deduplicated slice into a sorted, deduplicated
/// list, in place: the list is extended, existing data is shifted to
/// the tail of the buffer, and merged output is written forward from
/// the head with three cursors. The write cursor never catches up with
/// the read cursor into the shifted data. Returns the number of new
/// targets.
fn merge_into(list: &mut Vec<u32>, incoming: &[Uid]) -> (r: usize)
    requires
        list_sorted(old(list)@),
        list_sorted(incoming@),
        old(list)@.len() + incoming@.len() <= usize::MAX,
    ensures
        list_sorted(final(list)@),
        final(list)@.to_set() == old(list)@.to_set().union(incoming@.to_set()),
        final(list)@.len() >= old(list)@.len(),
        final(list)@.len() <= old(list)@.len() + incoming@.len(),
        r == final(list)@.len() - old(list)@.len(),
{
    let ghost olds = (*old(list))@;
    let ghost inc = incoming@;
    let inc_len = incoming.len();
    let old_len = list.len();
    if inc_len == 0 {
        vec_shrink_to_fit(list);
        proof {
            lemma_empty_has_nothing(inc);
            assert(list@.to_set() =~= olds.to_set().union(inc.to_set()));
        }
        return 0;
    }
    // Fast path: all incoming beyond all existing data.
    if old_len > 0 && incoming[0] > list[old_len - 1] {
        let mut k: usize = 0;
        while k < inc_len
            invariant
                0 <= k <= inc_len,
                inc == incoming@,
                inc_len == inc.len(),
                old_len == olds.len(),
                old_len + inc_len <= usize::MAX,
                list@ == olds + inc.take(k as int),
                list_sorted(olds),
                list_sorted(inc),
                old_len > 0 ==> inc[0] > olds[old_len - 1],
            decreases inc_len - k,
        {
            list.push(incoming[k]);
            proof {
                assert(list@ =~= olds + inc.take(k as int + 1));
            }
            k = k + 1;
        }
        proof {
            assert(inc.take(inc_len as int) =~= inc);
            assert(list@ == olds + inc);
            assert(list_sorted(list@)) by {
                assert forall|a: int, b: int| 0 <= a < b < list@.len() implies #[trigger] list@[a]
                    < #[trigger] list@[b] by {
                    if a < old_len && b >= old_len {
                        assert(list@[a] == olds[a]);
                        assert(list@[b] == inc[b - old_len]);
                        assert(olds[a] <= olds[old_len - 1] || a == old_len - 1);
                        assert(inc[0] <= inc[b - old_len]);
                    }
                }
            }
            assert forall|t: u32| list@.contains(t) implies olds.contains(t) || inc.contains(
                t,
            ) by {
                let a = choose|a: int| 0 <= a < list@.len() && list@[a] == t;
                if a < old_len {
                    assert(olds[a] == t);
                } else {
                    assert(inc[a - old_len] == t);
                }
            }
            assert forall|t: u32| olds.contains(t) || inc.contains(t) implies list@.contains(
                t,
            ) by {
                if olds.contains(t) {
                    let a = choose|a: int| 0 <= a < olds.len() && olds[a] == t;
                    assert(list@[a] == t);
                } else {
                    let a = choose|a: int| 0 <= a < inc.len() && inc[a] == t;
                    assert(list@[old_len + a] == t);
                }
            }
            assert(list@.to_set() =~= olds.to_set().union(inc.to_set()));
        }
        return inc_len;
    }
    // Slow path: extend, shift existing data to the tail, merge forward.
    let total = old_len + inc_len;
    let mut k: usize = 0;
    while k < inc_len
        invariant
            0 <= k <= inc_len,
            list@.len() == old_len + k,
            list@.take(old_len as int) == olds,
        decreases inc_len - k,
    {
        list.push(0);
        proof {
            assert(list@.take(old_len as int) =~= olds);
        }
        k = k + 1;
    }
    proof {
        assert(forall|a: int| 0 <= a < old_len ==> #[trigger] list@[a] == olds[a]) by {
            assert(forall|a: int| 0 <= a < old_len ==> list@.take(old_len as int)[a] == olds[a]);
        }
    }
    let mut s = old_len;
    while s > 0
        invariant
            0 <= s <= old_len,
            list@.len() == total,
            total == old_len + inc_len,
            inc == incoming@,
            inc_len == inc.len(),
            old_len == olds.len(),
            forall|a: int| 0 <= a < s ==> #[trigger] list@[a] == olds[a],
            forall|a: int| s <= a < old_len ==> #[trigger] list@[inc_len + a] == olds[a],
        decreases s,
    {
        s = s - 1;
        let v = list[s];
        list.set(inc_len + s, v);
    }
    proof {
        assert forall|a: int| inc_len <= a < total implies #[trigger] list@[a] == olds[a
            - inc_len] by {
            assert(list@[inc_len + (a - inc_len)] == olds[a - inc_len]);
        }
        assert(list@.take(0).contains(0u32) == false);
        assert(forall|t: u32| !(#[trigger] list@.take(0).contains(t))) by {
            lemma_empty_has_nothing(list@.take(0));
        }
        assert(forall|t: u32| !(#[trigger] olds.take(0).contains(t))) by {
            lemma_empty_has_nothing(olds.take(0));
        }
        assert(forall|t: u32| !(#[trigger] inc.take(0).contains(t))) by {
            lemma_empty_has_nothing(inc.take(0));
        }
    }
    let mut write: usize = 0;
    let mut i: usize = inc_len;
    let mut j: usize = 0;
    while i < total && j < inc_len
        invariant
            inc_len <= i <= total,
            0 <= j <= inc_len,
            0 <= write,
            total == old_len + inc_len,
            inc == incoming@,
            inc_len == inc.len(),
            old_len == olds.len(),
            list@.len() == total,
            list_sorted(olds),
            list_sorted(inc),
            inc.len() - j <= i - write,
            i - write <= inc.len(),
            forall|a: int| i <= a < total ==> #[trigger] list@[a] == olds[a - inc_len],
            forall|a: int, b: int|
                0 <= a < b < write ==> #[trigger] list@[a] < #[trigger] list@[b],
            forall|t: u32| #[trigger]
                list@.take(write as int).contains(t) <==> olds.take(i - inc_len).contains(t)
                    || inc.take(j as int).contains(t),
            write > 0 && i < total ==> list@[write - 1] < olds[i - inc_len],
            write > 0 && j < inc_len ==> list@[write - 1] < inc[j as int],
        decreases total - i + inc_len - j,
    {
        let ghost prefix = list@.take(write as int);
        let old_val = list[i];
        let inc_val = incoming[j];
        proof {
            assert(list@[i as int] == olds[i - inc_len]);
        }
        if old_val < inc_val {
            list.set(write, old_val);
            proof {
                lemma_merge_step(prefix, list@.take(write as int + 1), olds, inc, i - inc_len,
                    j as int, old_val, true, false);
            }
            write = write + 1;
            i = i + 1;
        } else if old_val == inc_val {
            list.set(write, old_val);
            proof {
                lemma_merge_step(prefix, list@.take(write as int + 1), olds, inc, i - inc_len,
                    j as int, old_val, true, true);
            }
            write = write + 1;
            i = i + 1;
            j = j + 1;
        } else {
            list.set(write, inc_val);
            proof {
                lemma_merge_step(prefix, list@.take(write as int + 1), olds, inc, i - inc_len,
                    j as int, inc_val, false, true);
            }
            write = write + 1;
            j = j + 1;
        }
    }
    // Copy any remaining shifted data down to the write cursor.
    while i < total
        invariant
            inc_len <= i <= total,
            j == inc_len || i == total,
            0 <= j <= inc_len,
            0 <= write,
            total == old_len + inc_len,
            inc == incoming@,
            inc_len == inc.len(),
            old_len == olds.len(),
            list@.len() == total,
            list_sorted(olds),
            list_sorted(inc),
            inc.len() - j <= i - write,
            i - write <= inc.len(),
            forall|a: int| i <= a < total ==> #[trigger] list@[a] == olds[a - inc_len],
            forall|a: int, b: int|
                0 <= a < b < write ==> #[trigger] list@[a] < #[trigger] list@[b],
            forall|t: u32| #[trigger]
                list@.take(write as int).contains(t) <==> olds.take(i - inc_len).contains(t)
                    || inc.take(j as int).contains(t),
            write > 0 && i < total ==> list@[write - 1] < olds[i - inc_len],
            write > 0 && j < inc_len ==> list@[write - 1] < inc[j as int],
        decreases total - i,
    {
        let ghost prefix = list@.take(write as int);
        let old_val = list[i];
        proof {
            assert(list@[i as int] == olds[i - inc_len]);
        }
        list.set(write, old_val);
        proof {
            lemma_merge_step(prefix, list@.take(write as int + 1), olds, inc, i - inc_len,
                j as int, old_val, true, false);
        }
        write = write + 1;
        i = i + 1;
    }
    proof {
        assert(olds.take(i - inc_len) =~= olds);
    }
    // Copy any remaining incoming data.
    while j < inc_len
        invariant
            i == total,
            0 <= j <= inc_len,
            0 <= write <= total,
            total == old_len + inc_len,
            inc == incoming@,
            inc_len == inc.len(),
            old_len == olds.len(),
            list@.len() == total,
            list_sorted(olds),
            list_sorted(inc),
            inc.len() - j <= total - write,
            total - write <= inc.len(),
            forall|a: int, b: int|
                0 <= a < b < write ==> #[trigger] list@[a] < #[trigger] list@[b],
            forall|t: u32| #[trigger]
                list@.take(write as int).contains(t) <==> olds.contains(t) || inc.take(
                    j as int,
                ).contains(t),
            write > 0 && j < inc_len ==> list@[write - 1] < inc[j as int],
        decreases inc_len - j,
    {
        let ghost prefix = list@.take(write as int);
        let inc_val = incoming[j];
        list.set(write, inc_val);
        proof {
            assert(olds.take(old_len as int) =~= olds);
            lemma_merge_step(prefix, list@.take(write as int + 1), olds, inc, old_len as int,
                j as int, inc_val, false, true);
        }
        write = write + 1;
        j = j + 1;
    }
    proof {
        assert(olds.take(old_len as int) =~= olds);
        assert(inc.take(inc_len as int) =~= inc);
    }
    proof {
        assert(write <= total);
    }
    list.truncate(write);
    vec_shrink_to_fit(list);
    proof {
        assert(list@ =~= list@.take(write as int));
        assert(write >= old_len) by {
            assert(total - write <= inc.len());
        }
        assert(list@.to_set() =~= olds.to_set().union(inc.to_set()));
    }
    write - old_len
}

/// One step of the forward merge: pushing the smaller head onto the
/// written prefix preserves order and membership.
proof fn lemma_merge_step(
    prefix: Seq<u32>,
    extended: Seq<u32>,
    olds: Seq<u32>,
    inc: Seq<u32>,
    oc: int,
    j: int,
    v: u32,
    from_old: bool,
    from_inc: bool,
)
    requires
        0 <= oc <= olds.len(),
        0 <= j <= inc.len(),
        extended =~= prefix.push(v),
        list_sorted(olds),
        list_sorted(inc),
        forall|a: int, b: int| 0 <= a < b < prefix.len() ==> #[trigger] prefix[a] < #[trigger] prefix[b],
        forall|t: u32| #[trigger]
            prefix.contains(t) <==> olds.take(oc).contains(t) || inc.take(j).contains(t),
        prefix.len() > 0 && from_old ==> prefix.last() < v,
        prefix.len() > 0 && !from_old ==> prefix.last() < v,
        from_old ==> 0 <= oc < olds.len() && olds[oc] == v,
        from_inc ==> 0 <= j < inc.len() && inc[j] == v,
        from_old || from_inc,
    ensures
        forall|a: int, b: int|
            0 <= a < b < extended.len() ==> #[trigger] extended[a] < #[trigger] extended[b],
        forall|t: u32| #[trigger]
            extended.contains(t) <==> olds.take(oc + (if from_old { 1int } else { 0int })).contains(
                t,
            ) || inc.take(j + (if from_inc { 1int } else { 0int })).contains(t),
{
    let oc2 = oc + (if from_old { 1int } else { 0int });
    let j2 = j + (if from_inc { 1int } else { 0int });
    assert(forall|a: int| 0 <= a < prefix.len() ==> #[trigger] extended[a] == prefix[a]);
    assert(extended[extended.len() - 1] == v);
    assert forall|a: int, b: int| 0 <= a < b < extended.len() implies #[trigger] extended[a]
        < #[trigger] extended[b] by {
        if b == extended.len() - 1 && prefix.len() > 0 {
            assert(prefix[a] <= prefix[prefix.len() - 1] || a == prefix.len() - 1);
        }
    }
    assert forall|t: u32| #[trigger] extended.contains(t) implies olds.take(oc2).contains(t)
        || inc.take(j2).contains(t) by {
        let a = choose|a: int| 0 <= a < extended.len() && extended[a] == t;
        if a < prefix.len() {
            assert(prefix.contains(t));
            if olds.take(oc).contains(t) {
                let b = choose|b: int| 0 <= b < olds.take(oc).len() && olds.take(oc)[b] == t;
                assert(olds[b] == t);
                assert(olds.take(oc2)[b] == t);
            } else {
                assert(inc.take(j).contains(t));
                let b = choose|b: int| 0 <= b < inc.take(j).len() && inc.take(j)[b] == t;
                assert(inc[b] == t);
                assert(inc.take(j2)[b] == t);
            }
        } else {
            if from_old {
                assert(olds.take(oc2)[oc] == v);
            } else {
                assert(inc.take(j2)[j] == v);
            }
        }
    }
    assert forall|t: u32|
        olds.take(oc2).contains(t) || inc.take(j2).contains(t) implies #[trigger] extended.contains(
        t,
    ) by {
        if olds.take(oc2).contains(t) {
            let b = choose|b: int|
                0 <= b < olds.take(oc2).len() && olds.take(oc2)[b] == t;
            assert(olds[b] == t);
            if b < oc {
                assert(olds.take(oc)[b] == t);
                assert(prefix.contains(t));
                let c = choose|c: int| 0 <= c < prefix.len() && prefix[c] == t;
                assert(extended[c] == t);
            } else {
                assert(t == olds[oc]);
                assert(from_old);
                assert(extended[extended.len() - 1] == t);
            }
        } else {
            let b = choose|b: int| 0 <= b < inc.take(j2).len() && inc.take(j2)[b] == t;
            assert(inc[b] == t);
            if b < j {
                assert(inc.take(j)[b] == t);
                assert(prefix.contains(t));
                let c = choose|c: int| 0 <= c < prefix.len() && prefix[c] == t;
                assert(extended[c] == t);
            } else {
                assert(t == inc[j]);
                assert(from_inc);
                assert(extended[extended.len() - 1] == t);
            }
        }
    }
}

impl ReportUsage for Shard {
    /// The slot-array backbone plus every inner target list; empty and
    /// padded backbone slots count as waste.
    fn usage(&self) -> Usage {
        let mut u = Usage::default();
        let vec_bytes = core::mem::size_of::<Vec<Uid>>();
        let outer_cap = crate::usage::vec_capacity(&self.0);
        u.add_heap_usage(cap_mul(outer_cap, vec_bytes));
        let n = self.0.len();
        let mut empty: usize = 0;
        let mut i: usize = 0;
        while i < n
            invariant
                0 <= i <= n,
                n == self.0@.len(),
                empty <= i,
            decreases n - i,
        {
            if self.0[i].is_empty() {
                empty = empty + 1;
            }
            u.add_vec(&self.0[i]);
            i = i + 1;
        }
        let excess = if outer_cap > n {
            outer_cap - n
        } else {
            0
        };
        u.add_heap_waste(cap_mul(saturating_add_usize(empty, excess), vec_bytes));
        u
    }
}

impl HeapUsage for Shard {
    /// The heap bytes of this shard's usage report.
    fn heap_usage(&self) -> usize {
        self.usage().heap
    }
}

impl HeapWaste for Shard {
    /// The wasted bytes of this shard's usage report.
    fn heap_waste(&self) -> usize {
        self.usage().waste
    }
}

/// An empty list holds no target.
proof fn lemma_empty_has_nothing(s: Seq<u32>)
    requires
        s.len() == 0,
    ensures
        forall|t: u32| !s.contains(t),
{
    assert forall|t: u32| !s.contains(t) by {
        if s.contains(t) {
            let a = choose|a: int| 0 <= a < s.len() && s[a] == t;
        }
    }
}

/// Slots other than the touched one keep their contents.
proof fn lemma_shard_frame(pre: Shard, post: Shard, index: int)
    requires
        post.slots().len() >= pre.slots().len(),
        forall|j: int|
            0 <= j < post.slots().len() && j != index ==> #[trigger] post.slots()[j] == (if j
                < pre.slots().len() {
                pre.slots()[j]
            } else {
                Seq::<u32>::empty()
            }),
    ensures
        forall|j: int, t: u32|
            j != index ==> (#[trigger] post.has_target(j, t) <==> pre.has_target(j, t)),
        forall|j: int| j != index ==> #[trigger] post.slot_len(j) == pre.slot_len(j),
{
    assert forall|j: int, t: u32| j != index implies (#[trigger] post.has_target(j, t)
        <==> pre.has_target(j, t)) by {
        if 0 <= j < post.slots().len() {
            if j >= pre.slots().len() {
                assert(post.slots()[j] == Seq::<u32>::empty());
                lemma_empty_has_nothing(post.slots()[j]);
            }
        }
    }
    assert forall|j: int| j != index implies #[trigger] post.slot_len(j) == pre.slot_len(j) by {
        if 0 <= j < post.slots().len() && j >= pre.slots().len() {
            assert(post.slots()[j] == Seq::<u32>::empty());
        }
    }
}

/// The first position in a strictly sorted list whose value is at least
/// `x`.
fn lower_bound_u32(v: &Vec<u32>, x: u32) -> (r: usize)
    requires
        list_sorted(v@),
    ensures
        r <= v@.len(),
        forall|i: int| 0 <= i < r ==> #[trigger] v@[i] < x,
        forall|i: int| r <= i < v@.len() ==> #[trigger] v@[i] >= x,
{
    let mut lo: usize = 0;
    let mut hi: usize = v.len();
    while lo < hi
        invariant
            0 <= lo <= hi <= v@.len(),
            list_sorted(v@),
            forall|i: int| 0 <= i < lo ==> #[trigger] v@[i] < x,
            forall|i: int| hi <= i < v@.len() ==> #[trigger] v@[i] >= x,
        decreases hi - lo,
    {
        let mid = lo + (hi - lo) / 2;
        if v[mid] < x {
            proof {
                assert forall|i: int| 0 <= i < mid implies #[trigger] v@[i] < x by {
                    assert(v@[i] < v@[mid as int]);
                }
            }
            lo = mid + 1;
        } else {
            proof {
                assert forall|i: int| mid < i < v@.len() implies #[trigger] v@[i] >= x by {
                    assert(v@[i] > v@[mid as int]);
                }
            }
            hi = mid;
        }
    }
    lo
}

} // verus!
