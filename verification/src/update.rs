//! Ingesting one public event: the constraint updater pipeline.
//!
//! Each event is translated into slot mutations, the propagator is run to
//! its fixed point, and the decision is recomputed — one event is fully
//! settled before the next is admitted.

use vstd::prelude::*;

verus! {

use crate::bits::{submask, lemma_submask_and, lemma_submask_trans, low_mask};
use crate::card::{Card, Book, book_mask, spec_book_of};
use crate::engine::{
    Engine, Slot, Event, Ask, AskOutcome, Declare, EngineError, spec_has_book, spec_move_card,
    spec_not_own_card, spec_find_card, same_frame,
};
use crate::policy::{
    policy_post, opposing, eligible, book_qualifies, declare_ready, ask_err, has_pair,
    request_is_first_declare, request_is_best_ask, den,
};
use crate::prune::{pruned_to};

/// Removes `cards[j..]` from `p`'s hand, most specific slot first; `None`
/// when some card cannot be located.
pub open spec fn spec_remove_hand(s: Seq<Slot>, p: int, cards: Seq<Card>, j: int) -> Option<
    Seq<Slot>,
>
    decreases cards.len() - j,
{
    if j < 0 || j >= cards.len() {
        Option::Some(s)
    } else {
        match spec_find_card(s, p, cards[j]) {
            Option::Some(i) => spec_remove_hand(s.remove(i), p, cards, j + 1),
            Option::None => Option::None,
        }
    }
}

/// Removes every listed hand in order, starting at pair `i`.
pub open spec fn spec_remove_all(
    s: Seq<Slot>,
    pairs: Seq<(usize, Vec<Card>)>,
    i: int,
) -> Option<Seq<Slot>>
    decreases pairs.len() - i,
{
    if i < 0 || i >= pairs.len() {
        Option::Some(s)
    } else {
        match spec_remove_hand(s, pairs[i].0 as int, pairs[i].1@, 0) {
            Option::Some(s2) => spec_remove_all(s2, pairs, i + 1),
            Option::None => Option::None,
        }
    }
}

/// Clears the declared book's bits from every remaining slot that still
/// intersects it, marking those slots dirty.
pub open spec fn spec_clear_book(s: Seq<Slot>, b: Book) -> Seq<Slot> {
    Seq::new(
        s.len(),
        |j: int|
            if s[j].possible & book_mask(b) != 0 {
                Slot { possible: s[j].possible & !book_mask(b), owner: s[j].owner, dirty: true }
            } else {
                s[j]
            },
    )
}

impl Engine {
    /// Ingests one event: updates the constraints it implies, runs the
    /// propagator to its fixed point, and recomputes the request.
    ///
    /// A failure means the event stream is inconsistent with the current
    /// belief state; the update is aborted where it stood, and the store
    /// is not to be trusted further.
    #[verifier::loop_isolation(false)]
    pub fn update(&mut self, event: Event) -> (r: Result<(), EngineError>)
        requires
            old(self).wf(),
            event matches Event::Ask(a) ==> a.asker < old(self).num_players && a.askee < old(self).num_players && a.card.num < old(self).num_cards,
            event matches Event::Declare(d) ==> forall|i: int, j: int|
                0 <= i < d.actual_cards@.len() && 0 <= j < (#[trigger] d.actual_cards@[i]).1@.len()
                    ==> (#[trigger] d.actual_cards@[i].1@[j]).num < old(self).num_cards,
        ensures
            final(self).wf(),
            final(self).num_players == old(self).num_players,
            final(self).num_cards == old(self).num_cards,
            final(self).player_idx == old(self).player_idx,
            event matches Event::Ask(a) ==> a.outcome is Success ==> match spec_has_book(
                old(self).slots@,
                a.asker as int,
                spec_book_of(a.card.num as int),
            ) {
                Option::None => r == Err::<(), EngineError>(EngineError::NoSlotForBook)
                    && *final(self) == *old(self),
                Option::Some(s1) => match spec_move_card(s1, a.askee as int, a.asker, a.card) {
                    Option::None => r == Err::<(), EngineError>(EngineError::CardNotFound)
                        && final(self).slots@ == s1 && final(self).request == old(self).request,
                    Option::Some(s2) => pruned_to(s2, *final(self)) && policy_post(
                        *final(self),
                        r,
                    ),
                },
            },
            event matches Event::Ask(a) ==> a.outcome is Failure ==> match spec_has_book(
                old(self).slots@,
                a.asker as int,
                spec_book_of(a.card.num as int),
            ) {
                Option::None => r == Err::<(), EngineError>(EngineError::NoSlotForBook)
                    && *final(self) == *old(self),
                Option::Some(s1) => pruned_to(
                    spec_not_own_card(
                        spec_not_own_card(s1, a.asker as int, a.card),
                        a.askee as int,
                        a.card,
                    ),
                    *final(self),
                ) && policy_post(*final(self), r),
            },
            event matches Event::Declare(d) ==> match spec_remove_all(
                old(self).slots@,
                d.actual_cards@,
                0,
            ) {
                Option::None => r == Err::<(), EngineError>(EngineError::CardNotFound),
                Option::Some(s1) => pruned_to(spec_clear_book(s1, d.book), *final(self))
                    && policy_post(*final(self), r),
            },
    {
        match event {
            Event::Ask(a) => {
                let book: Book = a.card.book();
                match a.outcome {
                    AskOutcome::Success => {
                        match self.has_book(a.asker, book) {
                            Result::Ok(()) => (),
                            Result::Err(e) => {
                                return Result::Err(e);
                            },
                        }
                        match self.move_card(a.askee, a.asker, a.card) {
                            Result::Ok(()) => (),
                            Result::Err(e) => {
                                return Result::Err(e);
                            },
                        }
                    },
                    AskOutcome::Failure => {
                        match self.has_book(a.asker, book) {
                            Result::Ok(()) => (),
                            Result::Err(e) => {
                                return Result::Err(e);
                            },
                        }
                        self.not_own_card(a.asker, a.card);
                        self.not_own_card(a.askee, a.card);
                    },
                }
            },
            Event::Declare(d) => {
                let ac: Vec<(usize, Vec<Card>)> = d.actual_cards;
                let npairs: usize = ac.len();
                let mut i: usize = 0;
                while i < npairs
                    invariant
                        i <= npairs,
                        self.wf(),
                        same_frame(*old(self), *self),
                        self.num_cards == old(self).num_cards,
                        spec_remove_all(old(self).slots@, ac@, 0) == spec_remove_all(
                            self.slots@,
                            ac@,
                            i as int,
                        ),
                    decreases npairs - i,
                {
                    let p: usize = ac[i].0;
                    let ncards: usize = ac[i].1.len();
                    let mut j: usize = 0;
                    while j < ncards
                        invariant
                            j <= ncards,
                            i < npairs,
                            p == ac@[i as int].0,
                            ncards == ac@[i as int].1@.len(),
                            self.wf(),
                            same_frame(*old(self), *self),
                            self.num_cards == old(self).num_cards,
                            spec_remove_all(old(self).slots@, ac@, 0) == match spec_remove_hand(
                                self.slots@,
                                p as int,
                                ac@[i as int].1@,
                                j as int,
                            ) {
                                Option::Some(s2) => spec_remove_all(s2, ac@, i as int + 1),
                                Option::None => Option::None::<Seq<Slot>>,
                            },
                        decreases ncards - j,
                    {
                        let card: Card = ac[i].1[j];
                        match self.find_card(&self.slots, p, card) {
                            Option::Some(idx) => {
                                let ghost before = self.slots@;
                                self.slots.remove(idx);
                                proof {
                                    assert(self.slots@ == before.remove(idx as int));
                                }
                            },
                            Option::None => {
                                return Result::Err(EngineError::CardNotFound);
                            },
                        }
                        j = j + 1;
                    }
                    i = i + 1;
                }

                // The book is fully accounted for: it cannot appear in any
                // remaining slot.
                let ghost mid = self.slots@;
                let bmask: u64 = d.book.mask();
                let n: usize = self.slots.len();
                let mut t: usize = 0;
                while t < n
                    invariant
                        t <= n,
                        n == self.slots@.len(),
                        n == mid.len(),
                        bmask == book_mask(d.book),
                        same_frame(*old(self), *self),
                        self.num_players == old(self).num_players,
                        self.num_cards == old(self).num_cards,
                        forall|q: int| t as int <= q < n as int ==> self.slots@[q] == mid[q],
                        forall|q: int|
                            0 <= q < t as int ==> self.slots@[q] == spec_clear_book(mid, d.book)[q],
                    decreases n - t,
                {
                    if self.slots[t].possible & bmask != 0 {
                        let newp: u64 = self.slots[t].possible & !bmask;
                        self.slots[t].dirty = true;
                        self.slots[t].possible = newp;
                    }
                    t = t + 1;
                }
                proof {
                    assert(self.slots@ =~= spec_clear_book(mid, d.book));
                    assert forall|q: int|
                        0 <= q < self.slots@.len() implies submask(
                        (#[trigger] self.slots@[q]).possible,
                        low_mask(self.num_cards as u64),
                    ) by {
                        lemma_submask_and(mid[q].possible, !book_mask(d.book));
                        lemma_submask_trans(
                            self.slots@[q].possible,
                            mid[q].possible,
                            low_mask(self.num_cards as u64),
                        );
                    }
                    assert(self.wf());
                }
            },
        }

        self.prune();
        let ghost mid_engine = *self;
        let r2: Result<(), EngineError> = self.update_request();
        proof {
            // Recomputing the request leaves the slot store alone, so the
            // policy's conditions read the same on the final engine as on
            // the engine it was handed.
            let post = *self;
            let pre = mid_engine;
            assert(post.slots@ == pre.slots@);
            assert forall|p2: int| opposing(post, p2) == opposing(pre, p2) by {}
            assert forall|c2: u64| eligible(post, c2) == eligible(pre, c2) by {}
            assert forall|b2: Book|
                book_qualifies(post.slots@, post.player_idx as int, b2) == book_qualifies(
                pre.slots@,
                pre.player_idx as int,
                b2,
            ) by {}
            assert(declare_ready(post) == declare_ready(pre)) by {
                if declare_ready(post) {
                    let b0 = choose|b: Book|
                        book_qualifies(post.slots@, post.player_idx as int, b);
                    assert(book_qualifies(pre.slots@, pre.player_idx as int, b0));
                }
                if declare_ready(pre) {
                    let b0 = choose|b: Book| book_qualifies(pre.slots@, pre.player_idx as int, b);
                    assert(book_qualifies(post.slots@, post.player_idx as int, b0));
                }
            }
            assert((exists|p2: int| opposing(post, p2)) == (exists|p2: int| opposing(pre, p2)))
                by {
                if exists|p2: int| opposing(post, p2) {
                    let p0 = choose|p2: int| opposing(post, p2);
                    assert(opposing(pre, p0));
                }
                if exists|p2: int| opposing(pre, p2) {
                    let p0 = choose|p2: int| opposing(pre, p2);
                    assert(opposing(post, p0));
                }
            }
            assert((exists|c2: u64| eligible(post, c2) && den(post.slots@, c2) == 0) == (
            exists|c2: u64| eligible(pre, c2) && den(pre.slots@, c2) == 0)) by {
                if exists|c2: u64| eligible(post, c2) && den(post.slots@, c2) == 0 {
                    let c0 = choose|c2: u64| eligible(post, c2) && den(post.slots@, c2) == 0;
                    assert(eligible(pre, c0) && den(pre.slots@, c0) == 0);
                }
                if exists|c2: u64| eligible(pre, c2) && den(pre.slots@, c2) == 0 {
                    let c0 = choose|c2: u64| eligible(pre, c2) && den(pre.slots@, c2) == 0;
                    assert(eligible(post, c0) && den(post.slots@, c0) == 0);
                }
            }
            assert((exists|c2: u64| eligible(post, c2)) == (exists|c2: u64| eligible(pre, c2)))
                by {
                if exists|c2: u64| eligible(post, c2) {
                    let c0 = choose|c2: u64| eligible(post, c2);
                    assert(eligible(pre, c0));
                }
                if exists|c2: u64| eligible(pre, c2) {
                    let c0 = choose|c2: u64| eligible(pre, c2);
                    assert(eligible(post, c0));
                }
            }
            assert(ask_err(post) == ask_err(pre));
            assert(has_pair(post) == has_pair(pre));
            if declare_ready(pre) {
                assert(request_is_first_declare(pre, post.request));
                assert(request_is_first_declare(post, post.request));
            }
            if !declare_ready(pre) && !ask_err(pre) && has_pair(pre) {
                assert(request_is_best_ask(pre, post.request));
                assert(request_is_best_ask(post, post.request));
            }
            assert(policy_post(post, r2));
        }
        r2
    }
}

} // verus!
