//! Engine-wide laws, stated once and proved from the contracts.

use vstd::prelude::*;

verus! {

use crate::bits::{
    nth, popcnt, submask, lemma_popcnt_submask, lemma_submask_and, lemma_nth_ops,
    lemma_and_single_bit,
};
use crate::card::{Card, Book, card_mask, book_mask};
use crate::engine::{
    Engine, Slot, EventRequest, spec_has_book, spec_move_card, spec_not_own_card, find_first,
    lemma_find_first, pred_exact, pred_in_book, pred_containing, pred_overlap, spec_find_card,
    owner_confined,
};
use crate::policy::{cnt, den, opposing, eligible, request_is_best_ask};
use crate::prune::{consistent, pruned_to};

/// Every slot of `post` has at most as many candidates as in `pre`.
pub open spec fn popcnt_le_pointwise(pre: Seq<Slot>, post: Seq<Slot>) -> bool {
    &&& post.len() == pre.len()
    &&& forall|j: int|
        0 <= j < pre.len() ==> popcnt((#[trigger] post[j]).possible) <= popcnt(pre[j].possible)
}

/// A successful `has_book` step only narrows candidate sets.
proof fn lemma_has_book_monotonic(s0: Seq<Slot>, s1: Seq<Slot>, p: int, b: Book)
    requires
        spec_has_book(s0, p, b) == Option::Some(s1),
    ensures
        popcnt_le_pointwise(s0, s1),
{
    if exists|j: int| owner_confined(s0, j, p, b) {
        assert(s1 == s0);
    } else {
        let i = find_first(s0, pred_overlap(p, b), 0)->Some_0;
        lemma_find_first(s0, pred_overlap(p, b), 0);
        lemma_submask_and(s0[i].possible, book_mask(b));
        lemma_popcnt_submask(s0[i].possible & book_mask(b), s0[i].possible);
    }
}

/// A successful `move_card` step only narrows candidate sets.
proof fn lemma_move_card_monotonic(s1: Seq<Slot>, s2: Seq<Slot>, from: int, to: usize, c: Card)
    requires
        c.num < 64,
        spec_move_card(s1, from, to, c) == Option::Some(s2),
    ensures
        popcnt_le_pointwise(s1, s2),
{
    let i = spec_find_card(s1, from, c)->Some_0;
    lemma_find_first(s1, pred_exact(from, c), 0);
    lemma_find_first(s1, pred_in_book(from, c), 0);
    lemma_find_first(s1, pred_containing(from, c), 0);
    lemma_nth_ops();
    lemma_and_single_bit(s1[i].possible, c.num as u64);
    assert(nth(s1[i].possible, c.num as u64));
    assert(submask(card_mask(c.num), s1[i].possible)) by {
        assert(forall|t: u64|
            t < 64 && #[trigger] nth(card_mask(c.num), t) ==> t == c.num as u64);
    }
    lemma_popcnt_submask(card_mask(c.num), s1[i].possible);
}

/// A `not_own_card` step only narrows candidate sets.
proof fn lemma_not_own_monotonic(s1: Seq<Slot>, p: int, c: Card)
    requires
        c.num < 64,
    ensures
        popcnt_le_pointwise(s1, spec_not_own_card(s1, p, c)),
{
    let s2 = spec_not_own_card(s1, p, c);
    assert forall|j: int|
        0 <= j < s1.len() implies popcnt((#[trigger] s2[j]).possible) <= popcnt(
        s1[j].possible,
    ) by {
        lemma_submask_and(s1[j].possible, !card_mask(c.num));
        lemma_popcnt_submask(s1[j].possible & !card_mask(c.num), s1[j].possible);
    }
}

/// A pruned store only narrows candidate sets.
proof fn lemma_pruned_monotonic(s2: Seq<Slot>, e: Engine)
    requires
        pruned_to(s2, e),
    ensures
        popcnt_le_pointwise(s2, e.slots@),
{
    assert forall|j: int|
        0 <= j < s2.len() implies popcnt((#[trigger] e.slots@[j]).possible) <= popcnt(
        s2[j].possible,
    ) by {
        lemma_popcnt_submask(e.slots@[j].possible, s2[j].possible);
    }
}

/// Ingesting a successful request only ever narrows slots: no slot's
/// candidate count grows through the book constraint, the card move or
/// the propagation that follow the event.
pub proof fn lemma_ask_success_monotonic(
    s0: Seq<Slot>,
    s1: Seq<Slot>,
    s2: Seq<Slot>,
    e: Engine,
    asker: int,
    askee: int,
    to: usize,
    c: Card,
    b: Book,
)
    requires
        c.num < 64,
        spec_has_book(s0, asker, b) == Option::Some(s1),
        spec_move_card(s1, askee, to, c) == Option::Some(s2),
        pruned_to(s2, e),
    ensures
        popcnt_le_pointwise(s0, e.slots@),
{
    lemma_has_book_monotonic(s0, s1, asker, b);
    lemma_move_card_monotonic(s1, s2, askee, to, c);
    lemma_pruned_monotonic(s2, e);
}

/// Ingesting a failed request only ever narrows slots.
pub proof fn lemma_ask_failure_monotonic(
    s0: Seq<Slot>,
    s1: Seq<Slot>,
    e: Engine,
    asker: int,
    askee: int,
    c: Card,
    b: Book,
)
    requires
        c.num < 64,
        spec_has_book(s0, asker, b) == Option::Some(s1),
        pruned_to(spec_not_own_card(spec_not_own_card(s1, asker, c), askee, c), e),
    ensures
        popcnt_le_pointwise(s0, e.slots@),
{
    lemma_has_book_monotonic(s0, s1, asker, b);
    lemma_not_own_monotonic(s1, asker, c);
    lemma_not_own_monotonic(spec_not_own_card(s1, asker, c), askee, c);
    lemma_pruned_monotonic(spec_not_own_card(spec_not_own_card(s1, asker, c), askee, c), e);
}

/// Some slot can still hold card id `c`.
pub open spec fn card_covered(s: Seq<Slot>, c: int) -> bool {
    exists|j: int| 0 <= j < s.len() && nth((#[trigger] s[j]).possible, c as u64)
}

/// No card is ever wrongly excluded: whatever injective assignment of
/// true cards to slots was consistent before propagation, each assigned
/// card is still possible for its slot afterwards — so every truly held
/// card is still covered by some slot.
pub proof fn lemma_no_card_excluded(pre: Seq<Slot>, f: Seq<int>, e: Engine)
    requires
        consistent(pre, f),
        pruned_to(pre, e),
    ensures
        forall|i: int| 0 <= i < f.len() ==> nth(e.slots@[i].possible, #[trigger] f[i] as u64),
        forall|i: int| 0 <= i < f.len() ==> #[trigger] card_covered(e.slots@, f[i]),
{
    assert(consistent(e.slots@, f));
    assert forall|i: int| 0 <= i < f.len() implies #[trigger] card_covered(e.slots@, f[i]) by {
        assert(0 <= i < e.slots@.len());
        assert(nth(e.slots@[i].possible, f[i] as u64));
    }
}

/// A truthful exclusion is sound: when no slot of `p` truly holds card
/// `c`, clearing `c` from `p`'s slots keeps every true assignment
/// consistent — the failure path never wrongly excludes a card.
pub proof fn lemma_not_own_card_sound(s: Seq<Slot>, f: Seq<int>, p: int, c: Card)
    requires
        c.num < 64,
        consistent(s, f),
        forall|j: int| 0 <= j < s.len() && (#[trigger] s[j]).owner as int == p ==> f[j] != c.num as int,
    ensures
        consistent(spec_not_own_card(s, p, c), f),
{
    let s2 = spec_not_own_card(s, p, c);
    lemma_nth_ops();
    assert forall|i: int|
        0 <= i < f.len() implies 0 <= #[trigger] f[i] < 64 && nth(s2[i].possible, f[i] as u64) by {
        if s[i].owner as int == p {
            assert(nth(card_mask(c.num), f[i] as u64) ==> f[i] == c.num as int) by {
                lemma_and_single_bit(s[i].possible, c.num as u64);
            }
        }
    }
}

/// With a unique maximum chance, the emitted ask is fully determined:
/// the coin never speaks, and the same belief state always yields the
/// same request.
pub proof fn lemma_unique_best_is_asked(e: Engine, req: EventRequest, p: int, c: u64)
    requires
        request_is_best_ask(e, req),
        opposing(e, p),
        eligible(e, c),
        den(e.slots@, c) > 0,
        forall|p2: int, c2: u64|
            opposing(e, p2) && eligible(e, c2) && den(e.slots@, c2) > 0 && !(p2 == p && c2 == c)
                ==> #[trigger] cnt(e.slots@, p2, c2) * den(e.slots@, c) < cnt(e.slots@, p, c) * den(
                e.slots@,
                c2,
            ),
    ensures
        req == (EventRequest::Ask { askee: p as usize, card: (Card { num: c as u8 }) }),
{
    match req {
        EventRequest::Ask { askee, card } => {
            let a = askee as int;
            let cn = card.num as u64;
            if !(a == p && cn == c) {
                assert(cnt(e.slots@, p, c) * den(e.slots@, cn) <= cnt(e.slots@, a, cn) * den(
                    e.slots@,
                    c,
                ));
                assert(cnt(e.slots@, a, cn) * den(e.slots@, c) < cnt(e.slots@, p, c) * den(
                    e.slots@,
                    cn,
                ));
                assert(false);
            }
            assert(askee == p as usize);
            assert(card.num == c as u8);
        },
        _ => {
            assert(false);
        },
    }
}

} // verus!
