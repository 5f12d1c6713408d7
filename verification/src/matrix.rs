//! Queryable snapshots of the belief state.
//!
//! `to_matrix` renders every slot as a row of booleans over all card ids,
//! sorted by (owner, number of candidates, raw mask) for a deterministic,
//! stable display order. `assert_sanity` cross-checks the live belief
//! state against ground-truth hands.

use vstd::prelude::*;

verus! {

use crate::bits::{nth, popcnt, popcount};
use crate::card::Card;
use crate::engine::{Engine, Slot, EngineError};
use crate::update::{spec_remove_all, spec_remove_hand};

/// Display order of slots: by owner, then by number of candidates, then
/// by the raw mask value.
pub open spec fn key_le(a: Slot, b: Slot) -> bool {
    ||| a.owner < b.owner
    ||| (a.owner == b.owner && popcnt(a.possible) < popcnt(b.possible))
    ||| (a.owner == b.owner && popcnt(a.possible) == popcnt(b.possible) && a.possible
        <= b.possible)
}

/// `rows` presents exactly the slots of `s`, reordered by `perm` into
/// display order, each rendered as `nc` booleans.
pub open spec fn is_matrix_of(
    s: Seq<Slot>,
    nc: int,
    perm: Seq<int>,
    rows: Seq<(usize, Vec<bool>)>,
) -> bool {
    &&& perm.len() == s.len()
    &&& rows.len() == s.len()
    &&& forall|t: int| 0 <= t < perm.len() ==> 0 <= #[trigger] perm[t] < s.len()
    &&& forall|t1: int, t2: int|
        0 <= t1 < perm.len() && 0 <= t2 < perm.len() && t1 != t2 ==> #[trigger] perm[t1]
            != #[trigger] perm[t2]
    &&& forall|t: int|
        0 <= t < rows.len() ==> (#[trigger] rows[t]).0 == s[perm[t]].owner
    &&& forall|t: int|
        0 <= t < rows.len() ==> (#[trigger] rows[t]).1@.len() == nc
    &&& forall|t: int, b: int|
        0 <= t < rows.len() && 0 <= b < nc ==> (#[trigger] rows[t].1@[b]) == nth(
            s[perm[t]].possible,
            b as u64,
        )
    &&& forall|t1: int, t2: int|
        0 <= t1 < t2 < rows.len() ==> key_le(s[perm[t1]], s[perm[t2]])
}

/// Renders a mask as `nc` booleans, lowest card id first.
fn to_bits(m: u64, nc: usize) -> (r: Vec<bool>)
    requires
        nc <= 64,
    ensures
        r@.len() == nc as int,
        forall|b: int| 0 <= b < nc as int ==> #[trigger] r@[b] == nth(m, b as u64),
{
    let mut r: Vec<bool> = Vec::new();
    let mut i: u64 = 0;
    while i < nc as u64
        invariant
            i <= nc as u64,
            nc <= 64,
            r@.len() == i as int,
            forall|b: int| 0 <= b < i as int ==> #[trigger] r@[b] == nth(m, b as u64),
        decreases nc as u64 - i,
    {
        r.push((m >> i) & 1u64 == 1u64);
        i = i + 1;
    }
    r
}

/// Whether `a` sorts at or before `b` in display order.
fn slot_key_le(a: &Slot, b: &Slot) -> (r: bool)
    ensures
        r == key_le(*a, *b),
{
    if a.owner != b.owner {
        a.owner < b.owner
    } else {
        let pa: u32 = popcount(a.possible);
        let pb: u32 = popcount(b.possible);
        if pa != pb {
            pa < pb
        } else {
            a.possible <= b.possible
        }
    }
}

impl Engine {
    /// A snapshot of all slots: each as its owner and a row of booleans
    /// over all card ids, sorted by (owner, candidate count, raw mask).
    #[verifier::loop_isolation(false)]
    pub fn to_matrix(&self) -> (r: Vec<(usize, Vec<bool>)>)
        requires
            self.wf(),
        ensures
            r@.len() == self.slots@.len(),
            exists|perm: Seq<int>|
                is_matrix_of(self.slots@, self.num_cards as int, perm, r@),
    {
        let n: usize = self.slots.len();

        // Sort slot indices into display order.
        let mut idxs: Vec<usize> = Vec::new();
        let mut i: usize = 0;
        while i < n
            invariant
                i <= n,
                idxs@.len() == i as int,
                forall|t: int| 0 <= t < i as int ==> #[trigger] idxs@[t] == t,
            decreases n - i,
        {
            idxs.push(i);
            i = i + 1;
        }

        let mut i2: usize = 1;
        while i2 < n
            invariant
                1 <= i2,
                idxs@.len() == n as int,
                forall|t: int| 0 <= t < n as int ==> 0 <= #[trigger] idxs@[t] < n,
                forall|t1: int, t2: int|
                    0 <= t1 < n as int && 0 <= t2 < n as int && t1 != t2 ==> #[trigger] idxs@[t1]
                        != #[trigger] idxs@[t2],
                forall|t1: int, t2: int|
                    0 <= t1 < t2 < i2 as int ==> key_le(
                        self.slots@[idxs@[t1] as int],
                        self.slots@[idxs@[t2] as int],
                    ),
            decreases n - i2,
        {
            let mut j: usize = i2;
            while j > 0 && !slot_key_le(&self.slots[idxs[j - 1]], &self.slots[idxs[j]])
                invariant
                    j <= i2,
                    i2 < n,
                    idxs@.len() == n as int,
                    forall|t: int| 0 <= t < n as int ==> 0 <= #[trigger] idxs@[t] < n,
                    forall|t1: int, t2: int|
                        0 <= t1 < n as int && 0 <= t2 < n as int && t1 != t2 ==> #[trigger] idxs@[t1]
                            != #[trigger] idxs@[t2],
                    forall|t1: int, t2: int|
                        0 <= t1 < t2 <= i2 as int && t2 != j as int ==> key_le(
                            self.slots@[idxs@[t1] as int],
                            self.slots@[idxs@[t2] as int],
                        ),
                    forall|t: int|
                        (j as int) < t && t <= i2 as int ==> key_le(
                            self.slots@[idxs@[j as int] as int],
                            self.slots@[idxs@[t] as int],
                        ),
                decreases j,
            {
                let prev: usize = idxs[j - 1];
                let cur: usize = idxs[j];
                idxs[j] = prev;
                idxs[j - 1] = cur;
                j = j - 1;
            }
            proof {
                assert forall|t1: int, t2: int|
                    0 <= t1 < t2 <= i2 as int implies key_le(
                    self.slots@[idxs@[t1] as int],
                    self.slots@[idxs@[t2] as int],
                ) by {
                    if t2 == j as int && j > 0 {
                        assert(key_le(
                            self.slots@[idxs@[j as int - 1] as int],
                            self.slots@[idxs@[j as int] as int],
                        ));
                        if t1 < j as int - 1 {
                            assert(key_le(
                                self.slots@[idxs@[t1] as int],
                                self.slots@[idxs@[j as int - 1] as int],
                            ));
                        }
                    }
                }
            }
            i2 = i2 + 1;
        }

        // Render each slot in display order.
        let mut rows: Vec<(usize, Vec<bool>)> = Vec::new();
        let mut t: usize = 0;
        while t < n
            invariant
                t <= n,
                idxs@.len() == n as int,
                forall|q: int| 0 <= q < n as int ==> 0 <= #[trigger] idxs@[q] < n,
                rows@.len() == t as int,
                forall|q: int|
                    0 <= q < t as int ==> (#[trigger] rows@[q]).0 == self.slots@[idxs@[q] as int].owner,
                forall|q: int|
                    0 <= q < t as int ==> (#[trigger] rows@[q]).1@.len() == self.num_cards as int,
                forall|q: int, b: int|
                    0 <= q < t as int && 0 <= b < self.num_cards as int ==> (#[trigger] rows@[q].1@[b])
                        == nth(self.slots@[idxs@[q] as int].possible, b as u64),
            decreases n - t,
        {
            let idx: usize = idxs[t];
            let bits: Vec<bool> = to_bits(self.slots[idx].possible, self.num_cards);
            rows.push((self.slots[idx].owner, bits));
            t = t + 1;
        }

        proof {
            let perm = Seq::new(idxs@.len(), |q: int| idxs@[q] as int);
            assert(is_matrix_of(self.slots@, self.num_cards as int, perm, rows@));
        }
        rows
    }

    /// Checks the live belief state against ground-truth hands: every
    /// listed card must match a distinct compatible slot, greedily from
    /// the most specific, and no slot may be left over.
    pub fn assert_sanity(&self, players: &Vec<(usize, Vec<Card>)>) -> (r: Result<(), EngineError>)
        requires
            self.wf(),
            forall|i: int, j: int|
                0 <= i < players@.len() && 0 <= j < (#[trigger] players@[i]).1@.len() ==> (
                #[trigger] players@[i].1@[j]).num < self.num_cards,
        ensures
            match spec_remove_all(self.slots@, players@, 0) {
                Option::Some(s) => if s.len() == 0 {
                    r is Ok
                } else {
                    r == Err::<(), EngineError>(EngineError::SlotsLeftOver)
                },
                Option::None => r == Err::<(), EngineError>(EngineError::CardNotFound),
            },
    {
        // Work on a scratch copy of the slot store.
        let mut scratch: Vec<Slot> = Vec::new();
        let n: usize = self.slots.len();
        let mut i: usize = 0;
        while i < n
            invariant
                i <= n,
                n == self.slots@.len(),
                scratch@ == self.slots@.subrange(0, i as int),
            decreases n - i,
        {
            scratch.push(self.slots[i]);
            i = i + 1;
        }
        proof {
            assert(scratch@ == self.slots@);
        }

        let npairs: usize = players.len();
        let mut pi: usize = 0;
        while pi < npairs
            invariant
                pi <= npairs,
                npairs == players@.len(),
                self.wf(),
                forall|i2: int, j2: int|
                    0 <= i2 < players@.len() && 0 <= j2 < (#[trigger] players@[i2]).1@.len() ==> (
                    #[trigger] players@[i2].1@[j2]).num < self.num_cards,
                spec_remove_all(self.slots@, players@, 0) == spec_remove_all(
                    scratch@,
                    players@,
                    pi as int,
                ),
            decreases npairs - pi,
        {
            let p: usize = players[pi].0;
            let ncards: usize = players[pi].1.len();
            let mut j: usize = 0;
            while j < ncards
                invariant
                    j <= ncards,
                    pi < npairs,
                    npairs == players@.len(),
                    self.wf(),
                    p == players@[pi as int].0,
                    ncards == players@[pi as int].1@.len(),
                    forall|i2: int, j2: int|
                        0 <= i2 < players@.len() && 0 <= j2 < (#[trigger] players@[i2]).1@.len()
                            ==> (#[trigger] players@[i2].1@[j2]).num < self.num_cards,
                    spec_remove_all(self.slots@, players@, 0) == match spec_remove_hand(
                        scratch@,
                        p as int,
                        players@[pi as int].1@,
                        j as int,
                    ) {
                        Option::Some(s2) => spec_remove_all(s2, players@, pi as int + 1),
                        Option::None => Option::None::<Seq<Slot>>,
                    },
                decreases ncards - j,
            {
                let card: Card = players[pi].1[j];
                match self.find_card(&scratch, p, card) {
                    Option::Some(idx) => {
                        let ghost before = scratch@;
                        scratch.remove(idx);
                        proof {
                            assert(scratch@ == before.remove(idx as int));
                        }
                    },
                    Option::None => {
                        return Result::Err(EngineError::CardNotFound);
                    },
                }
                j = j + 1;
            }
            pi = pi + 1;
        }

        if scratch.len() == 0 {
            Result::Ok(())
        } else {
            Result::Err(EngineError::SlotsLeftOver)
        }
    }
}

} // verus!
