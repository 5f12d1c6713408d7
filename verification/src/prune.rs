//! The propagator: a worklist fixed point over dirty slots.
//!
//! Whenever exactly as many slots are confined to one mask as that mask
//! has candidate identities, those identities are fully claimed by the
//! matched slots and leave every other slot. The fixed point only ever
//! narrows masks, and it never cuts off a true assignment of cards to
//! slots: any injective assignment consistent with the store before
//! propagation is still consistent with it afterwards.

use vstd::prelude::*;

verus! {

use crate::bits::{
    nth, submask, popcnt, bits_of, popcount, lemma_nth_ops, lemma_popcnt_strictly_shrinks,
    lemma_bits_of_finite, lemma_submask_trans, low_mask, lemma_and_not_disjoint,
    lemma_and_not_overlap,
};
use crate::engine::{Engine, Slot, same_frame};
use vstd::set_lib::{
    lemma_len_subset, lemma_subset_equality, lemma_map_size, set_int_range, lemma_int_range,
};
use vstd::relations::injective_on;

/// An injective assignment of one true card id to every slot, each id
/// still possible for its slot.
pub open spec fn consistent(s: Seq<Slot>, f: Seq<int>) -> bool {
    &&& f.len() == s.len()
    &&& forall|i: int, j: int|
        0 <= i < f.len() && 0 <= j < f.len() && i != j ==> #[trigger] f[i] != #[trigger] f[j]
    &&& forall|i: int|
        0 <= i < f.len() ==> 0 <= #[trigger] f[i] < 64 && nth(s[i].possible, f[i] as u64)
}

/// No slot awaits re-examination.
pub open spec fn no_dirty(s: Seq<Slot>) -> bool {
    forall|j: int| 0 <= j < s.len() ==> !(#[trigger] s[j]).dirty
}

/// `post` keeps `pre`'s length and owners and only ever narrows masks.
pub open spec fn slotwise_narrowed(pre: Seq<Slot>, post: Seq<Slot>) -> bool {
    &&& post.len() == pre.len()
    &&& forall|j: int| 0 <= j < pre.len() ==> (#[trigger] post[j]).owner == pre[j].owner
    &&& forall|j: int|
        0 <= j < pre.len() ==> submask((#[trigger] post[j]).possible, pre[j].possible)
}

/// Every assignment consistent with `pre` is consistent with `post`.
pub open spec fn preserves_assignments(pre: Seq<Slot>, post: Seq<Slot>) -> bool {
    forall|f: Seq<int>| #[trigger] consistent(pre, f) ==> consistent(post, f)
}

/// What one pass of the propagator leaves behind, relative to the store
/// `mid` it started from.
pub open spec fn pruned_to(mid: Seq<Slot>, e: Engine) -> bool {
    &&& slotwise_narrowed(mid, e.slots@)
    &&& no_dirty(e.slots@)
    &&& preserves_assignments(mid, e.slots@)
}

/// The indices below `k` whose slot is confined to exactly `mask`.
pub open spec fn matches_set(s: Seq<Slot>, mask: u64, k: int) -> Set<int> {
    Set::new(|j: int| 0 <= j < k && s[j].possible == mask)
}

/// One slot pair respecting the Hall rule: if `j`'s mask is claimed by
/// exactly as many slots as it has candidates, `k` overlaps it only by
/// being confined to it too.
pub open spec fn hall_ok(s: Seq<Slot>, j: int, k: int) -> bool {
    (matches_set(s, s[j].possible, s.len() as int).len() == popcnt(s[j].possible) && s[k].possible
        & s[j].possible != 0) ==> s[k].possible == s[j].possible
}

/// Slot `j`'s mask is fully propagated through the store.
pub open spec fn settled_for(s: Seq<Slot>, j: int) -> bool {
    forall|k: int| 0 <= k < s.len() ==> #[trigger] hall_ok(s, j, k)
}

/// Some dirty slot shares `j`'s mask, so the worklist will come back to
/// that mask before it rests.
pub open spec fn dirty_alias(s: Seq<Slot>, j: int) -> bool {
    exists|d: int|
        0 <= d < s.len() && (#[trigger] s[d]).dirty && s[d].possible == s[j].possible
}

/// Every clean slot is either fully propagated or excused by a dirty
/// alias still on the worklist. Stores the engine builds and mutates
/// keep this shape: mutation marks the touched slots dirty.
pub open spec fn hall_invariant(s: Seq<Slot>) -> bool {
    forall|j: int|
        0 <= j < s.len() && !(#[trigger] s[j]).dirty ==> settled_for(s, j) || dirty_alias(s, j)
}

/// No Hall set anywhere in the store is left unapplied.
pub open spec fn hall_settled(s: Seq<Slot>) -> bool {
    forall|j: int| 0 <= j < s.len() ==> #[trigger] settled_for(s, j)
}

/// A fully settled store trivially satisfies the worklist invariant.
pub proof fn lemma_settled_is_invariant(s: Seq<Slot>)
    requires
        hall_settled(s),
    ensures
        hall_invariant(s),
{
}

/// What the narrowing pass for `mask` leaves in slot `j`.
pub open spec fn narrowed_slot(pre: Seq<Slot>, mask: u64, j: int) -> Slot {
    if pre[j].possible != mask && pre[j].possible & mask != 0 {
        Slot { possible: pre[j].possible & !mask, owner: pre[j].owner, dirty: true }
    } else {
        pre[j]
    }
}

/// `matches_set` reads only the masks.
proof fn lemma_matches_set_masks(a: Seq<Slot>, b: Seq<Slot>, m: u64)
    requires
        a.len() == b.len(),
        forall|t: int| 0 <= t < a.len() ==> (#[trigger] a[t]).possible == b[t].possible,
    ensures
        matches_set(a, m, a.len() as int) == matches_set(b, m, b.len() as int),
{
    assert(matches_set(a, m, a.len() as int) =~= matches_set(b, m, b.len() as int));
}

/// Clearing the examined slot's flag without a Hall set keeps every
/// clean slot settled or excused.
proof fn lemma_no_pass_keeps_invariant(head: Seq<Slot>, cur: Seq<Slot>, idx: int, mask: u64)
    requires
        0 <= idx < head.len(),
        cur.len() == head.len(),
        forall|t: int|
            0 <= t < head.len() ==> (#[trigger] cur[t]).possible == head[t].possible
                && cur[t].owner == head[t].owner,
        forall|t: int|
            0 <= t < head.len() && t != idx ==> (#[trigger] cur[t]).dirty == head[t].dirty,
        !cur[idx].dirty,
        cur[idx].possible == mask,
        matches_set(cur, mask, cur.len() as int).len() != popcnt(mask),
        hall_invariant(head),
    ensures
        hall_invariant(cur),
{
    let n = head.len() as int;
    assert forall|j: int|
        0 <= j < n && !(#[trigger] cur[j]).dirty implies settled_for(cur, j) || dirty_alias(
        cur,
        j,
    ) by {
        let mj = cur[j].possible;
        lemma_matches_set_masks(cur, head, mj);
        if mj == mask {
            lemma_matches_set_masks(cur, head, mask);
            assert forall|k: int| 0 <= k < n implies #[trigger] hall_ok(cur, j, k) by {}
        } else {
            assert(j != idx);
            assert(!head[j].dirty);
            assert(settled_for(head, j) || dirty_alias(head, j));
            if settled_for(head, j) {
                assert forall|k: int| 0 <= k < n implies #[trigger] hall_ok(cur, j, k) by {
                    assert(hall_ok(head, j, k));
                }
            } else {
                let d = choose|d: int|
                    0 <= d < head.len() && (#[trigger] head[d]).dirty && head[d].possible
                        == head[j].possible;
                assert(d != idx);
                assert(cur[d].dirty && cur[d].possible == cur[j].possible);
            }
        }
    }
}

/// Applying the Hall narrowing pass keeps every clean slot settled or
/// excused: the examined mask is fully applied, masks disjoint from it
/// are untouched, and a slot narrowed into someone's mask is itself the
/// dirty excuse for that mask.
proof fn lemma_pass_keeps_invariant(
    head: Seq<Slot>,
    pre: Seq<Slot>,
    cur: Seq<Slot>,
    idx: int,
    mask: u64,
)
    requires
        0 <= idx < head.len(),
        pre.len() == head.len(),
        cur.len() == head.len(),
        forall|t: int|
            0 <= t < head.len() ==> (#[trigger] pre[t]).possible == head[t].possible
                && pre[t].owner == head[t].owner,
        forall|t: int|
            0 <= t < head.len() && t != idx ==> (#[trigger] pre[t]).dirty == head[t].dirty,
        !pre[idx].dirty,
        pre[idx].possible == mask,
        matches_set(pre, mask, pre.len() as int).len() == popcnt(mask),
        forall|t: int| 0 <= t < cur.len() ==> #[trigger] cur[t] == narrowed_slot(pre, mask, t),
        hall_invariant(head),
    ensures
        hall_invariant(cur),
{
    let n = head.len() as int;
    assert forall|j: int|
        0 <= j < n && !(#[trigger] cur[j]).dirty implies settled_for(cur, j) || dirty_alias(
        cur,
        j,
    ) by {
        assert(cur[j] == narrowed_slot(pre, mask, j));
        assert(cur[j] == pre[j]);
        let mj = pre[j].possible;
        if mj == mask {
            // The pass stripped the mask from everything else: settled.
            assert forall|k: int| 0 <= k < n implies #[trigger] hall_ok(cur, j, k) by {
                assert(cur[k] == narrowed_slot(pre, mask, k));
                if pre[k].possible != mask && pre[k].possible & mask != 0 {
                    lemma_and_not_disjoint(pre[k].possible, mask);
                    assert(cur[k].possible & mask == 0);
                }
            }
        } else {
            assert(mj & mask == 0);
            assert(j != idx);
            assert(!head[j].dirty);
            if exists|w: int|
                0 <= w < n && pre[w].possible != mask && (#[trigger] pre[w]).possible & mask != 0
                    && pre[w].possible & !mask == mj {
                // A slot was narrowed into this mask: it is the excuse.
                let w = choose|w: int|
                    0 <= w < n && pre[w].possible != mask && (#[trigger] pre[w]).possible & mask
                        != 0 && pre[w].possible & !mask == mj;
                assert(cur[w] == narrowed_slot(pre, mask, w));
                assert(cur[w].dirty && cur[w].possible == cur[j].possible);
                assert(dirty_alias(cur, j));
            } else {
                // The class of this mask is untouched by the pass.
                assert forall|t: int|
                    0 <= t < n implies ((#[trigger] cur[t]).possible == mj) == (pre[t].possible
                    == mj) by {
                    assert(cur[t] == narrowed_slot(pre, mask, t));
                    if pre[t].possible != mask && pre[t].possible & mask != 0 {
                        assert(pre[t].possible != mj);
                        if cur[t].possible == mj {
                            assert(pre[t].possible & !mask == mj);
                            assert(exists|w: int|
                                0 <= w < n && pre[w].possible != mask && (#[trigger] pre[w]).possible
                                    & mask != 0 && pre[w].possible & !mask == mj);
                            assert(false);
                        }
                    }
                }
                assert(matches_set(cur, mj, n) =~= matches_set(pre, mj, n));
                lemma_matches_set_masks(pre, head, mj);
                assert(settled_for(head, j) || dirty_alias(head, j));
                if settled_for(head, j) {
                    assert forall|k: int| 0 <= k < n implies #[trigger] hall_ok(cur, j, k) by {
                        assert(hall_ok(head, j, k));
                        assert(cur[k] == narrowed_slot(pre, mask, k));
                        if matches_set(cur, mj, n).len() == popcnt(mj) && cur[k].possible & mj
                            != 0 {
                            if pre[k].possible != mask && pre[k].possible & mask != 0 {
                                lemma_and_not_overlap(pre[k].possible, mask, mj);
                                assert(head[k].possible == mj);
                                assert(false);
                            }
                        }
                    }
                } else {
                    let d = choose|d: int|
                        0 <= d < head.len() && (#[trigger] head[d]).dirty && head[d].possible
                            == head[j].possible;
                    assert(d != idx);
                    assert(pre[d].dirty && pre[d].possible == mj);
                    assert(cur[d] == narrowed_slot(pre, mask, d));
                    assert(cur[d].dirty && cur[d].possible == cur[j].possible);
                    assert(dirty_alias(cur, j));
                }
            }
        }
    }
}

/// Total popcount of the store, the first termination measure.
pub open spec fn sum_popcnt(s: Seq<Slot>) -> nat
    decreases s.len(),
{
    if s.len() == 0 {
        0
    } else {
        sum_popcnt(s.drop_last()) + popcnt(s.last().possible)
    }
}

/// Number of dirty slots, the second termination measure.
pub open spec fn count_dirty(s: Seq<Slot>) -> nat
    decreases s.len(),
{
    if s.len() == 0 {
        0
    } else {
        count_dirty(s.drop_last()) + (if s.last().dirty {
            1nat
        } else {
            0nat
        })
    }
}

/// How one slot replacement moves the total popcount.
proof fn lemma_sum_popcnt_update(s: Seq<Slot>, j: int, v: Slot)
    requires
        0 <= j < s.len(),
    ensures
        sum_popcnt(s.update(j, v)) + popcnt(s[j].possible) == sum_popcnt(s) + popcnt(v.possible),
    decreases s.len(),
{
    let su = s.update(j, v);
    if j == s.len() - 1 {
        assert(su.drop_last() =~= s.drop_last());
        assert(su.last() == v);
    } else {
        assert(su.drop_last() =~= s.drop_last().update(j, v));
        assert(su.last() == s.last());
        lemma_sum_popcnt_update(s.drop_last(), j, v);
    }
}

/// How one slot replacement moves the dirty count.
proof fn lemma_count_dirty_update(s: Seq<Slot>, j: int, v: Slot)
    requires
        0 <= j < s.len(),
    ensures
        count_dirty(s.update(j, v)) + (if s[j].dirty {
            1nat
        } else {
            0nat
        }) == count_dirty(s) + (if v.dirty {
            1nat
        } else {
            0nat
        }),
    decreases s.len(),
{
    let su = s.update(j, v);
    if j == s.len() - 1 {
        assert(su.drop_last() =~= s.drop_last());
        assert(su.last() == v);
    } else {
        assert(su.drop_last() =~= s.drop_last().update(j, v));
        assert(su.last() == s.last());
        lemma_count_dirty_update(s.drop_last(), j, v);
    }
}

/// The Hall-set argument. When exactly `popcnt(mask)` slots are confined
/// to exactly `mask`, those slots claim all of `mask`'s identities among
/// themselves: no slot outside the matched set can truly hold one.
proof fn lemma_hall_step(s: Seq<Slot>, mask: u64, f: Seq<int>, j: int)
    requires
        consistent(s, f),
        matches_set(s, mask, s.len() as int).len() == popcnt(mask),
        0 <= j < s.len(),
        s[j].possible != mask,
    ensures
        !nth(mask, f[j] as u64),
{
    let n = s.len() as int;
    let ms = matches_set(s, mask, n);
    let fmap = |i: int| f[i];
    let image = ms.map(fmap);

    lemma_int_range(0, n);
    assert(ms.subset_of(set_int_range(0, n)));
    lemma_len_subset(ms, set_int_range(0, n));

    assert(injective_on(fmap, ms));
    lemma_map_size(ms, image, fmap);

    lemma_bits_of_finite(mask);
    assert forall|y: int| image.contains(y) implies bits_of(mask).contains(y) by {
        let x = choose|x: int| ms.contains(x) && y == fmap(x);
        assert(nth(s[x].possible, f[x] as u64));
    }
    lemma_subset_equality(image, bits_of(mask));

    if nth(mask, f[j] as u64) {
        assert(bits_of(mask).contains(f[j]));
        assert(image.contains(f[j]));
        let x = choose|x: int| ms.contains(x) && f[j] == fmap(x);
        assert(s[x].possible == mask);
        assert(x != j);
        assert(f[x] != f[j]);
        assert(false);
    }
}

impl Engine {
    /// The index of some slot awaiting re-examination, if any.
    fn find_dirty(&self) -> (r: Option<usize>)
        ensures
            match r {
                Option::Some(i) => i < self.slots@.len() && self.slots@[i as int].dirty,
                Option::None => no_dirty(self.slots@),
            },
    {
        let n: usize = self.slots.len();
        let mut i: usize = 0;
        while i < n
            invariant
                i <= n,
                n == self.slots@.len(),
                forall|j: int| 0 <= j < i as int ==> !(#[trigger] self.slots@[j]).dirty,
            decreases n - i,
        {
            if self.slots[i].dirty {
                return Option::Some(i);
            }
            i = i + 1;
        }
        Option::None
    }

    /// Runs the worklist to its fixed point.
    ///
    /// Afterwards no slot is dirty; masks have only narrowed and owners
    /// are untouched; a store that started with no dirty slot is returned
    /// unchanged (running `prune` twice equals running it once); every
    /// injective assignment of true cards to slots that was consistent
    /// before is consistent still — propagation never wrongly excludes a
    /// card from all slots; and on a store whose clean slots were all
    /// settled or excused by a dirty alias, the fixed point leaves no
    /// Hall set unapplied anywhere.
    pub fn prune(&mut self)
        requires
            old(self).wf(),
        ensures
            final(self).wf(),
            same_frame(*old(self), *final(self)),
            slotwise_narrowed(old(self).slots@, final(self).slots@),
            no_dirty(final(self).slots@),
            no_dirty(old(self).slots@) ==> *final(self) == *old(self),
            preserves_assignments(old(self).slots@, final(self).slots@),
            hall_invariant(old(self).slots@) ==> hall_settled(final(self).slots@),
    {
        loop
            invariant
                self.wf(),
                old(self).wf(),
                same_frame(*old(self), *self),
                slotwise_narrowed(old(self).slots@, self.slots@),
                no_dirty(old(self).slots@) ==> *self == *old(self),
                preserves_assignments(old(self).slots@, self.slots@),
                hall_invariant(old(self).slots@) ==> hall_invariant(self.slots@),
            ensures
                self.wf(),
                same_frame(*old(self), *self),
                slotwise_narrowed(old(self).slots@, self.slots@),
                no_dirty(self.slots@),
                no_dirty(old(self).slots@) ==> *self == *old(self),
                preserves_assignments(old(self).slots@, self.slots@),
                hall_invariant(old(self).slots@) ==> hall_invariant(self.slots@),
            decreases sum_popcnt(self.slots@), count_dirty(self.slots@),
        {
            let ghost head = self.slots@;
            let idx: usize = match self.find_dirty() {
                Option::Some(i) => i,
                Option::None => { break },
            };

            self.slots[idx].dirty = false;
            let ghost cleared = Slot {
                possible: head[idx as int].possible,
                owner: head[idx as int].owner,
                dirty: false,
            };
            proof {
                assert(self.slots@ =~= head.update(idx as int, cleared));
                lemma_sum_popcnt_update(head, idx as int, cleared);
                lemma_count_dirty_update(head, idx as int, cleared);
                assert(sum_popcnt(self.slots@) == sum_popcnt(head));
                assert(count_dirty(self.slots@) + 1nat == count_dirty(head));
                assert forall|f: Seq<int>| consistent(head, f) implies consistent(
                    self.slots@,
                    f,
                ) by {
                    assert(forall|i: int|
                        0 <= i < f.len() ==> self.slots@[i].possible == head[i].possible);
                }
            }
            let ghost pre = self.slots@;
            let mask: u64 = self.slots[idx].possible;
            let n: usize = self.slots.len();

            // Count the slots confined to exactly this mask.
            let mut count: usize = 0;
            let mut t: usize = 0;
            proof {
                assert(matches_set(pre, mask, 0) =~= Set::empty());
            }
            while t < n
                invariant
                    t <= n,
                    n == self.slots@.len(),
                    self.slots@ == pre,
                    count <= t,
                    matches_set(pre, mask, t as int).finite(),
                    count == matches_set(pre, mask, t as int).len(),
                decreases n - t,
            {
                proof {
                    if pre[t as int].possible == mask {
                        assert(!matches_set(pre, mask, t as int).contains(t as int));
                        assert(matches_set(pre, mask, t as int + 1) =~= matches_set(
                            pre,
                            mask,
                            t as int,
                        ).insert(t as int));
                    } else {
                        assert(matches_set(pre, mask, t as int + 1) =~= matches_set(
                            pre,
                            mask,
                            t as int,
                        ));
                    }
                }
                if self.slots[t].possible == mask {
                    count = count + 1;
                }
                t = t + 1;
            }

            let pc: u32 = popcount(mask);
            if count == pc as usize {
                // The matched slots claim all of the mask's identities:
                // strip them from every other slot.
                let ghost mut changed: bool = false;
                let mut t2: usize = 0;
                while t2 < n
                    invariant
                        t2 <= n,
                        n == self.slots@.len(),
                        n == pre.len(),
                        old(self).wf(),
                        self.wf(),
                        same_frame(*old(self), *self),
                        matches_set(pre, mask, pre.len() as int).len() == popcnt(mask),
                        slotwise_narrowed(pre, self.slots@),
                        preserves_assignments(pre, self.slots@),
                        forall|j: int| t2 as int <= j < n as int ==> self.slots@[j] == pre[j],
                        forall|j: int|
                            0 <= j < t2 as int ==> #[trigger] self.slots@[j] == narrowed_slot(
                                pre,
                                mask,
                                j,
                            ),
                        forall|j: int|
                            0 <= j < n as int ==> (#[trigger] self.slots@[j]).possible == pre[j].possible
                                || self.slots@[j].possible == (pre[j].possible & !mask),
                        !changed ==> self.slots@ == pre,
                        changed ==> sum_popcnt(self.slots@) < sum_popcnt(pre),
                        slotwise_narrowed(old(self).slots@, pre),
                        preserves_assignments(old(self).slots@, pre),
                        no_dirty(old(self).slots@) ==> false,
                    decreases n - t2,
                {
                    if self.slots[t2].possible != mask && self.slots[t2].possible & mask != 0 {
                        let ghost before = self.slots@;
                        let newp: u64 = self.slots[t2].possible & !mask;
                        self.slots[t2].dirty = true;
                        self.slots[t2].possible = newp;
                        let ghost v = Slot {
                            possible: pre[t2 as int].possible & !mask,
                            owner: pre[t2 as int].owner,
                            dirty: true,
                        };
                        proof {
                            assert(self.slots@ =~= before.update(t2 as int, v));
                            lemma_popcnt_strictly_shrinks(pre[t2 as int].possible, mask);
                            lemma_sum_popcnt_update(before, t2 as int, v);
                            if !changed {
                                assert(before == pre);
                            }
                            changed = true;

                            // The new mask still fits under the deck mask.
                            lemma_submask_trans(
                                v.possible,
                                pre[t2 as int].possible,
                                low_mask(self.num_cards as u64),
                            );

                            // No true assignment loses its card.
                            assert forall|f: Seq<int>| consistent(pre, f) implies consistent(
                                self.slots@,
                                f,
                            ) by {
                                assert(consistent(before, f));
                                lemma_hall_step(pre, mask, f, t2 as int);
                                lemma_nth_ops();
                                assert(nth(pre[t2 as int].possible, f[t2 as int] as u64));
                                assert(nth(v.possible, f[t2 as int] as u64));
                                assert forall|i: int|
                                    0 <= i < f.len() implies 0 <= #[trigger] f[i] < 64 && nth(
                                    self.slots@[i].possible,
                                    f[i] as u64,
                                ) by {
                                    if i != t2 as int {
                                        assert(self.slots@[i] == before[i]);
                                    }
                                }
                            }
                        }
                    }
                    t2 = t2 + 1;
                }
                proof {
                    // Restore the outer invariants across this pass.
                    assert forall|j: int|
                        0 <= j < pre.len() implies submask(
                        (#[trigger] self.slots@[j]).possible,
                        old(self).slots@[j].possible,
                    ) by {
                        lemma_submask_trans(
                            self.slots@[j].possible,
                            pre[j].possible,
                            old(self).slots@[j].possible,
                        );
                    }
                    assert forall|f: Seq<int>| consistent(old(self).slots@, f) implies consistent(
                        self.slots@,
                        f,
                    ) by {
                        assert(consistent(pre, f));
                    }
                    if !changed {
                        assert(sum_popcnt(self.slots@) == sum_popcnt(head));
                        assert(count_dirty(self.slots@) < count_dirty(head));
                    } else {
                        assert(sum_popcnt(self.slots@) < sum_popcnt(head));
                    }
                    if hall_invariant(old(self).slots@) {
                        lemma_pass_keeps_invariant(head, pre, self.slots@, idx as int, mask);
                    }
                }
            } else {
                proof {
                    assert forall|f: Seq<int>| consistent(old(self).slots@, f) implies consistent(
                        self.slots@,
                        f,
                    ) by {
                        assert(consistent(pre, f));
                    }
                    assert forall|j: int|
                        0 <= j < pre.len() implies submask(
                        (#[trigger] self.slots@[j]).possible,
                        old(self).slots@[j].possible,
                    ) by {}
                    assert(sum_popcnt(self.slots@) == sum_popcnt(head));
                    assert(count_dirty(self.slots@) < count_dirty(head));
                    if hall_invariant(old(self).slots@) {
                        lemma_no_pass_keeps_invariant(head, self.slots@, idx as int, mask);
                    }
                }
            }
        }
        proof {
            if hall_invariant(old(self).slots@) {
                assert forall|j: int|
                    0 <= j < self.slots@.len() implies #[trigger] settled_for(
                    self.slots@,
                    j,
                ) by {
                    if dirty_alias(self.slots@, j) {
                        let d = choose|d: int|
                            0 <= d < self.slots@.len() && (#[trigger] self.slots@[d]).dirty
                                && self.slots@[d].possible == self.slots@[j].possible;
                        assert(false);
                    }
                }
            }
        }
    }
}

} // verus!
