//! The decision policy: from belief state to the next action.
//!
//! After every ingested event the engine recomputes its request. If the
//! owner's team can already name every card of some book, the policy asks
//! to declare the first such book. Otherwise it weighs, for every card the
//! owner lacks a copy of but has a stake in, the chance that each opponent
//! holds it — the opponent's count of candidate slots over all players'
//! counts — and asks the opponent with the highest chance, breaking exact
//! ties by a fair coin.

use vstd::prelude::*;

verus! {

use crate::bits::{nth, popcnt, popcount, lemma_and_single_bit};
use crate::card::{Card, Book, book_mask, spec_book_of, spec_book_index, card_mask};
use crate::engine::{Engine, Slot, EventRequest, EngineError};
use crate::externs::{ratio_gt, ratio_eq, coin_flip};
use vstd::std_specs::bits::u64_trailing_zeros;
use vstd::set_lib::{lemma_len_subset, set_int_range, lemma_int_range};

/// OR of the masks of the owner's team's already-resolved slots, over the
/// first `k` slots.
pub open spec fn team_mask(s: Seq<Slot>, me: int, k: int) -> u64
    decreases k,
{
    if k <= 0 {
        0u64
    } else {
        team_mask(s, me, k - 1) | (if s[k - 1].owner as int % 2 == me % 2 && popcnt(
            s[k - 1].possible,
        ) == 1 {
            s[k - 1].possible
        } else {
            0u64
        })
    }
}

/// OR of the masks of the owner's own slots, over the first `k` slots.
pub open spec fn owned_mask(s: Seq<Slot>, me: int, k: int) -> u64
    decreases k,
{
    if k <= 0 {
        0u64
    } else {
        owned_mask(s, me, k - 1) | (if s[k - 1].owner as int == me {
            s[k - 1].possible
        } else {
            0u64
        })
    }
}

/// The engine owner's team can already name every card of `b`.
pub open spec fn book_qualifies(s: Seq<Slot>, me: int, b: Book) -> bool {
    team_mask(s, me, s.len() as int) & book_mask(b) == book_mask(b)
}

/// The cards guessed for team player `p` on declaring `b`: the lowest
/// still-possible card of each of `p`'s slots intersecting the book, in
/// slot order, without repetition.
pub open spec fn guess_list(s: Seq<Slot>, p: int, b: Book, k: int) -> Seq<Card>
    decreases k,
{
    if k <= 0 {
        Seq::empty()
    } else {
        let rest = guess_list(s, p, b, k - 1);
        if s[k - 1].owner as int == p && s[k - 1].possible & book_mask(b) != 0 {
            let c = (Card { num: u64_trailing_zeros(s[k - 1].possible) as u8 });
            if rest.contains(c) {
                rest
            } else {
                rest.push(c)
            }
        } else {
            rest
        }
    }
}

/// The indices below `k` of `p`'s slots that can still hold card id `c`.
pub open spec fn cnt_set(s: Seq<Slot>, p: int, c: u64, k: int) -> Set<int> {
    Set::new(|j: int| 0 <= j < k && s[j].owner as int == p && nth(s[j].possible, c))
}

/// The indices below `k` of anyone's slots that can still hold card id `c`.
pub open spec fn den_set(s: Seq<Slot>, c: u64, k: int) -> Set<int> {
    Set::new(|j: int| 0 <= j < k && nth(s[j].possible, c))
}

/// How many of `p`'s slots can still hold card id `c`.
pub open spec fn cnt(s: Seq<Slot>, p: int, c: u64) -> nat {
    cnt_set(s, p, c, s.len() as int).len()
}

/// How many slots of anyone can still hold card id `c`.
pub open spec fn den(s: Seq<Slot>, c: u64) -> nat {
    den_set(s, c, s.len() as int).len()
}

/// `p` is an opponent the engine owner may ask.
pub open spec fn opposing(e: Engine, p: int) -> bool {
    0 <= p < e.num_players as int && p % 2 == 1 - (e.player_idx as int % 2)
}

/// Card id `c` is one the owner would ask for: not possibly already in
/// the owner's own hand, and of a book the owner has a stake in.
pub open spec fn eligible(e: Engine, c: u64) -> bool {
    &&& c < e.num_cards as u64
    &&& !nth(owned_mask(e.slots@, e.player_idx as int, e.slots@.len() as int), c)
    &&& owned_mask(e.slots@, e.player_idx as int, e.slots@.len() as int) & book_mask(
        spec_book_of(c as int),
    ) != 0
}

/// Some book already qualifies for a declaration.
pub open spec fn declare_ready(e: Engine) -> bool {
    exists|b: Book| book_qualifies(e.slots@, e.player_idx as int, b)
}

/// The policy must weigh a card that no slot can hold any more: the
/// belief state cannot price it.
pub open spec fn ask_err(e: Engine) -> bool {
    &&& exists|p: int| opposing(e, p)
    &&& exists|c: u64| eligible(e, c) && den(e.slots@, c) == 0
}

/// There is someone to ask and something to ask for.
pub open spec fn has_pair(e: Engine) -> bool {
    &&& exists|p: int| opposing(e, p)
    &&& exists|c: u64| eligible(e, c)
}

/// `req` declares the first qualifying book, guessing for every team
/// player in ascending order.
pub open spec fn request_is_first_declare(e: Engine, req: EventRequest) -> bool {
    req matches EventRequest::Declare { book, guessed_cards } && ({
        let s = e.slots@;
        let me = e.player_idx as int;
        let me0 = me % 2;
        &&& book_qualifies(s, me, book)
        &&& forall|b2: Book|
            spec_book_index(b2) < spec_book_index(book) ==> !book_qualifies(s, me, b2)
        &&& guessed_cards@.len() == (e.num_players as int - me0 + 1) / 2
        &&& forall|t: int|
            0 <= t < guessed_cards@.len() ==> (#[trigger] guessed_cards@[t]).0 as int == me0 + 2 * t
        &&& forall|t: int|
            0 <= t < guessed_cards@.len() ==> (#[trigger] guessed_cards@[t]).1@ == guess_list(
                s,
                me0 + 2 * t,
                book,
                s.len() as int,
            )
    })
}

/// `req` asks an opponent for an eligible card whose chance is maximal:
/// no opposing player holds any eligible card with a strictly better
/// count-over-total ratio.
pub open spec fn request_is_best_ask(e: Engine, req: EventRequest) -> bool {
    req matches EventRequest::Ask { askee, card } && ({
        let s = e.slots@;
        &&& opposing(e, askee as int)
        &&& eligible(e, card.num as u64)
        &&& den(s, card.num as u64) > 0
        &&& forall|p2: int, c2: u64|
            opposing(e, p2) && eligible(e, c2) && den(s, c2) > 0 ==> #[trigger] cnt(s, p2, c2)
                * den(s, card.num as u64) <= cnt(s, askee as int, card.num as u64) * den(s, c2)
    })
}

/// What recomputing the request leaves behind, on an engine whose slot
/// store already has the final shape.
pub open spec fn policy_post(e: Engine, r: Result<(), EngineError>) -> bool {
    &&& declare_ready(e) ==> r is Ok && request_is_first_declare(e, e.request)
    &&& !declare_ready(e) && ask_err(e) ==> r == Err::<(), EngineError>(
        EngineError::NoHolderForCard,
    ) && e.request is NoAction
    &&& !declare_ready(e) && !ask_err(e) && has_pair(e) ==> r is Ok && request_is_best_ask(
        e,
        e.request,
    )
    &&& !declare_ready(e) && !ask_err(e) && !has_pair(e) ==> r is Ok && e.request is NoAction
}

/// Chained ratio comparison by cross products, denominators positive.
proof fn lemma_ratio_trans(a: int, b: int, c: int, d: int, e: int, f: int)
    by (nonlinear_arith)
    requires
        b > 0,
        d > 0,
        f > 0,
        a * d <= c * b,
        c * f <= e * d,
    ensures
        a * f <= e * b,
{
}

/// Multiplying both sides of an inequality by a nonnegative factor.
proof fn lemma_mul_le(a: int, b: int, c: int)
    by (nonlinear_arith)
    requires
        a <= b,
        c >= 0,
    ensures
        a * c <= b * c,
{
}

/// A player's count never exceeds the total count.
proof fn lemma_cnt_le_den(s: Seq<Slot>, p: int, c: u64)
    ensures
        cnt(s, p, c) <= den(s, c),
        den_set(s, c, s.len() as int).finite(),
{
    let n = s.len() as int;
    lemma_int_range(0, n);
    assert(den_set(s, c, n).subset_of(set_int_range(0, n)));
    lemma_len_subset(den_set(s, c, n), set_int_range(0, n));
    assert(cnt_set(s, p, c, n).subset_of(den_set(s, c, n)));
    lemma_len_subset(cnt_set(s, p, c, n), den_set(s, c, n));
}

/// Whether `v` already holds the card.
fn contains_card(v: &Vec<Card>, c: Card) -> (r: bool)
    ensures
        r == v@.contains(c),
{
    let n: usize = v.len();
    let mut i: usize = 0;
    while i < n
        invariant
            i <= n,
            n == v@.len(),
            forall|j: int| 0 <= j < i as int ==> v@[j] != c,
        decreases n - i,
    {
        if v[i].num == c.num {
            return true;
        }
        i = i + 1;
    }
    false
}

impl Engine {
    /// Recomputes the request from the current belief state.
    ///
    /// A declaration of the first fully-named book wins over any ask; an
    /// ask goes to the (opponent, card) pair of maximal chance, exact
    /// ties broken by a fair coin, so with a unique maximum the choice is
    /// deterministic. The one failure is a card the policy must weigh
    /// that no slot can hold at all.
    #[verifier::loop_isolation(false)]
    #[verifier::rlimit(60)]
    pub fn update_request(&mut self) -> (r: Result<(), EngineError>)
        requires
            old(self).wf(),
        ensures
            final(self).wf(),
            final(self).slots@ == old(self).slots@,
            final(self).num_players == old(self).num_players,
            final(self).num_cards == old(self).num_cards,
            final(self).player_idx == old(self).player_idx,
            declare_ready(*old(self)) ==> r is Ok && request_is_first_declare(
                *old(self),
                final(self).request,
            ),
            !declare_ready(*old(self)) && ask_err(*old(self)) ==> r == Err::<(), EngineError>(
                EngineError::NoHolderForCard,
            ) && final(self).request is NoAction,
            !declare_ready(*old(self)) && !ask_err(*old(self)) && has_pair(*old(self)) ==> r is Ok
                && request_is_best_ask(*old(self), final(self).request),
            !declare_ready(*old(self)) && !ask_err(*old(self)) && !has_pair(*old(self)) ==> r is Ok
                && final(self).request is NoAction,
    {
        let me: usize = self.player_idx;
        let me0: usize = me % 2;
        let np: usize = self.num_players;
        let nc: usize = self.num_cards;
        let n: usize = self.slots.len();
        let ghost s = self.slots@;

        // DECLARE: union of the team's already-resolved slots.
        let mut team: u64 = 0;
        let mut k: usize = 0;
        while k < n
            invariant
                k <= n,
                team == team_mask(s, me as int, k as int),
            decreases n - k,
        {
            let sl_owner: usize = self.slots[k].owner;
            let sl_possible: u64 = self.slots[k].possible;
            if sl_owner % 2 == me0 && popcount(sl_possible) == 1 {
                team = team | sl_possible;
            } else {
                proof {
                    assert(team | 0u64 == team) by (bit_vector);
                }
            }
            k = k + 1;
        }

        let mut bi: u8 = 0;
        while bi < 9
            invariant
                bi <= 9,
                *self == *old(self),
                team == team_mask(s, me as int, n as int),
                forall|b2: Book|
                    spec_book_index(b2) < bi as u64 ==> !book_qualifies(s, me as int, b2),
            decreases 9 - bi,
        {
            let book: Book = Book::from_index(bi);
            let bmask: u64 = book.mask();
            if team & bmask == bmask {
                // The team already names every card of this book.
                let mut guessed: Vec<(usize, Vec<Card>)> = Vec::new();
                let mut p: usize = me0;
                while p < np
                    invariant
                        me0 <= p,
                        p <= np + 1,
                        (p as int - me0 as int) % 2 == 0,
                        guessed@.len() == (p as int - me0 as int) / 2,
                        forall|t: int|
                            0 <= t < guessed@.len() ==> (#[trigger] guessed@[t]).0 as int == me0
                                as int + 2 * t,
                        forall|t: int|
                            0 <= t < guessed@.len() ==> (#[trigger] guessed@[t]).1@ == guess_list(
                                s,
                                me0 as int + 2 * t,
                                book,
                                n as int,
                            ),
                    decreases np + 1 - p,
                {
                    let mut lst: Vec<Card> = Vec::new();
                    let mut t: usize = 0;
                    while t < n
                        invariant
                            t <= n,
                            lst@ == guess_list(s, p as int, book, t as int),
                        decreases n - t,
                    {
                        let poss: u64 = self.slots[t].possible;
                        if self.slots[t].owner == p && poss & bmask != 0 {
                            let tz: u32 = poss.trailing_zeros();
                            let cd = Card { num: tz as u8 };
                            if !contains_card(&lst, cd) {
                                lst.push(cd);
                            }
                        }
                        t = t + 1;
                    }
                    guessed.push((p, lst));
                    p = p + 2;
                }
                self.request = EventRequest::Declare { book, guessed_cards: guessed };
                proof {
                    assert(book_qualifies(s, me as int, book));
                    assert(declare_ready(*old(self)));
                    assert(guessed@.len() == (np as int - me0 as int + 1) / 2);
                    assert(request_is_first_declare(*old(self), self.request));
                }
                return Result::Ok(());
            }
            bi = bi + 1;
            proof {
                assert forall|b2: Book|
                    spec_book_index(b2) < bi as u64 implies !book_qualifies(s, me as int, b2) by {
                    if spec_book_index(b2) == bi as u64 - 1 {
                        assert(b2 == book);
                    }
                }
            }
        }
        proof {
            assert forall|b2: Book| !book_qualifies(s, me as int, b2) by {
                assert(spec_book_index(b2) < 9);
            }
            assert(!declare_ready(*old(self)));
        }

        // ASK: union of the owner's own slots.
        let mut owned: u64 = 0;
        let mut k2: usize = 0;
        while k2 < n
            invariant
                k2 <= n,
                owned == owned_mask(s, me as int, k2 as int),
            decreases n - k2,
        {
            let sl_owner: usize = self.slots[k2].owner;
            let sl_possible: u64 = self.slots[k2].possible;
            if sl_owner == me {
                owned = owned | sl_possible;
            } else {
                proof {
                    assert(owned | 0u64 == owned) by (bit_vector);
                }
            }
            k2 = k2 + 1;
        }

        let opp0: usize = if me0 == 0 {
            1
        } else {
            0
        };
        self.request = EventRequest::NoAction;

        let mut have_best: bool = false;
        let mut best_askee: usize = 0;
        let mut best_cnum: u8 = 0;
        let mut best_num: u8 = 0;
        let mut best_den: u8 = 1;

        let mut c: usize = 0;
        while c < nc
            invariant
                c <= nc,
                self.slots@ == s,
                self.num_players == np,
                self.num_cards == nc,
                self.player_idx == me,
                self.request is NoAction,
                best_den > 0,
                opp0 < np ==> forall|c2: u64|
                    c2 < c as u64 && eligible(*old(self), c2) ==> den(s, c2) > 0,
                have_best ==> opposing(*old(self), best_askee as int) && eligible(
                    *old(self),
                    best_cnum as u64,
                ) && best_num as int == cnt(s, best_askee as int, best_cnum as u64) && best_den
                    as int == den(s, best_cnum as u64),
                have_best ==> forall|p2: int, c2: u64|
                    opposing(*old(self), p2) && eligible(*old(self), c2) && den(s, c2) > 0 && c2 < c
                        as u64 ==> #[trigger] cnt(s, p2, c2) * best_den as int <= best_num as int
                        * den(s, c2),
                !have_best ==> forall|p2: int, c2: u64|
                    c2 < c as u64 ==> !(opposing(*old(self), p2) && eligible(*old(self), c2)),
            decreases nc - c,
        {
            let card = Card { num: c as u8 };
            let cmask: u64 = card.mask();
            let cbmask: u64 = card.book().mask();
            proof {
                lemma_and_single_bit(owned, c as u64);
            }
            if owned & cmask == 0 && owned & cbmask != 0 {
                proof {
                    assert(eligible(*old(self), c as u64));
                }
                // Total number of slots that can still hold this card.
                let mut dcount: u8 = 0;
                let mut t: usize = 0;
                proof {
                    assert(den_set(s, c as u64, 0) =~= Set::empty());
                }
                while t < n
                    invariant
                        t <= n,
                        dcount as int <= t as int,
                        den_set(s, c as u64, t as int).finite(),
                        dcount as int == den_set(s, c as u64, t as int).len(),
                    decreases n - t,
                {
                    proof {
                        lemma_and_single_bit(s[t as int].possible, c as u64);
                        if nth(s[t as int].possible, c as u64) {
                            assert(!den_set(s, c as u64, t as int).contains(t as int));
                            assert(den_set(s, c as u64, t as int + 1) =~= den_set(
                                s,
                                c as u64,
                                t as int,
                            ).insert(t as int));
                        } else {
                            assert(den_set(s, c as u64, t as int + 1) =~= den_set(
                                s,
                                c as u64,
                                t as int,
                            ));
                        }
                    }
                    if self.slots[t].possible & cmask != 0 {
                        dcount = dcount + 1;
                    }
                    t = t + 1;
                }
                proof {
                    assert(dcount as int == den(s, c as u64));
                }

                if dcount == 0 {
                    if opp0 < np {
                        proof {
                            assert(opposing(*old(self), opp0 as int));
                            assert(ask_err(*old(self)));
                        }
                        return Result::Err(EngineError::NoHolderForCard);
                    }
                    proof {
                        assert forall|p2: int| !opposing(*old(self), p2) by {
                            if 0 <= p2 < np as int && p2 % 2 == 1 - (me as int % 2) {
                                assert(opp0 as int == 1 - (me as int % 2));
                            }
                        }
                    }
                } else {
                    let ghost dg = dcount;
                    let mut done: bool = false;
                    let mut p: usize = opp0;
                    while p < np && !done
                        invariant
                            opp0 <= p,
                            p <= np + 1,
                            (p as int - opp0 as int) % 2 == 0,
                            dcount == dg,
                            dcount as int == den(s, c as u64),
                            dcount > 0,
                            best_den > 0,
                            have_best ==> opposing(*old(self), best_askee as int) && eligible(
                                *old(self),
                                best_cnum as u64,
                            ) && best_num as int == cnt(s, best_askee as int, best_cnum as u64)
                                && best_den as int == den(s, best_cnum as u64),
                            have_best ==> forall|p2: int, c2: u64|
                                opposing(*old(self), p2) && eligible(*old(self), c2) && den(s, c2)
                                    > 0 && c2 < c as u64 ==> #[trigger] cnt(s, p2, c2) * best_den
                                    as int <= best_num as int * den(s, c2),
                            have_best ==> forall|p2: int|
                                opposing(*old(self), p2) && p2 < p as int ==> #[trigger] cnt(
                                    s,
                                    p2,
                                    c as u64,
                                ) * best_den as int <= best_num as int * den(s, c as u64),
                            !have_best ==> forall|p2: int, c2: u64|
                                c2 < c as u64 ==> !(opposing(*old(self), p2) && eligible(
                                    *old(self),
                                    c2,
                                )),
                            !have_best ==> forall|p2: int|
                                p2 < p as int ==> !opposing(*old(self), p2),
                            done ==> have_best && forall|p2: int|
                                opposing(*old(self), p2) ==> #[trigger] cnt(s, p2, c as u64)
                                    * best_den as int <= best_num as int * den(s, c as u64),
                        decreases np + 1 - p,
                    {
                        proof {
                            assert(opposing(*old(self), p as int)) by {
                                assert(opp0 as int == 1 - (me as int % 2));
                            }
                        }
                        // This opponent's number of candidate slots.
                        let mut pcnt: u8 = 0;
                        let mut t2: usize = 0;
                        proof {
                            assert(cnt_set(s, p as int, c as u64, 0) =~= Set::empty());
                        }
                        while t2 < n
                            invariant
                                t2 <= n,
                                pcnt as int <= t2 as int,
                                cnt_set(s, p as int, c as u64, t2 as int).finite(),
                                pcnt as int == cnt_set(s, p as int, c as u64, t2 as int).len(),
                            decreases n - t2,
                        {
                            proof {
                                lemma_and_single_bit(s[t2 as int].possible, c as u64);
                                if s[t2 as int].owner as int == p as int && nth(
                                    s[t2 as int].possible,
                                    c as u64,
                                ) {
                                    assert(!cnt_set(s, p as int, c as u64, t2 as int).contains(
                                        t2 as int,
                                    ));
                                    assert(cnt_set(s, p as int, c as u64, t2 as int + 1)
                                        =~= cnt_set(s, p as int, c as u64, t2 as int).insert(
                                        t2 as int,
                                    ));
                                } else {
                                    assert(cnt_set(s, p as int, c as u64, t2 as int + 1)
                                        =~= cnt_set(s, p as int, c as u64, t2 as int));
                                }
                            }
                            if self.slots[t2].owner == p && self.slots[t2].possible & cmask != 0 {
                                pcnt = pcnt + 1;
                            }
                            t2 = t2 + 1;
                        }
                        proof {
                            assert(pcnt as int == cnt(s, p as int, c as u64));
                        }

                        let ghost obn = best_num;
                        let ghost obd = best_den;
                        let ghost ohave = have_best;
                        let take: bool = if !have_best {
                            true
                        } else if ratio_gt(pcnt, dcount, best_num, best_den) {
                            true
                        } else if ratio_eq(pcnt, dcount, best_num, best_den) {
                            coin_flip()
                        } else {
                            false
                        };

                        if take {
                            proof {
                                if ohave {
                                    assert(obn as int * dcount as int <= pcnt as int * obd as int);
                                }
                            }
                            best_askee = p;
                            best_cnum = c as u8;
                            best_num = pcnt;
                            best_den = dcount;
                            have_best = true;
                            proof {
                                assert(best_cnum as u64 == c as u64);
                                if ohave {
                                    assert forall|p2: int, c2: u64|
                                        opposing(*old(self), p2) && eligible(*old(self), c2) && den(
                                            s,
                                            c2,
                                        ) > 0 && c2 < c as u64 implies #[trigger] cnt(s, p2, c2)
                                        * best_den as int <= best_num as int * den(s, c2) by {
                                        lemma_ratio_trans(
                                            cnt(s, p2, c2) as int,
                                            den(s, c2) as int,
                                            obn as int,
                                            obd as int,
                                            pcnt as int,
                                            dcount as int,
                                        );
                                    }
                                    assert forall|p2: int|
                                        opposing(*old(self), p2) && p2 < p as int
                                            implies #[trigger] cnt(s, p2, c as u64) * best_den
                                            as int <= best_num as int * den(s, c as u64) by {
                                        lemma_ratio_trans(
                                            cnt(s, p2, c as u64) as int,
                                            den(s, c as u64) as int,
                                            obn as int,
                                            obd as int,
                                            pcnt as int,
                                            dcount as int,
                                        );
                                    }
                                }
                            }
                            if ratio_eq(pcnt, dcount, 1, 1) {
                                proof {
                                    assert(pcnt == dcount);
                                    assert forall|p2: int|
                                        opposing(*old(self), p2) implies #[trigger] cnt(
                                        s,
                                        p2,
                                        c as u64,
                                    ) * best_den as int <= best_num as int * den(s, c as u64) by {
                                        lemma_cnt_le_den(s, p2, c as u64);
                                        lemma_mul_le(
                                            cnt(s, p2, c as u64) as int,
                                            den(s, c as u64) as int,
                                            dcount as int,
                                        );
                                    }
                                }
                                done = true;
                            }
                        }
                        p = p + 2;
                    }
                    proof {
                        if have_best && !done {
                            assert forall|p2: int|
                                opposing(*old(self), p2) implies #[trigger] cnt(s, p2, c as u64)
                                * best_den as int <= best_num as int * den(s, c as u64) by {
                                assert(p2 < p as int);
                            }
                        }
                        if !have_best {
                            assert forall|p2: int| !opposing(*old(self), p2) by {
                                if 0 <= p2 < np as int {
                                    assert(p2 < p as int);
                                }
                            }
                        }
                    }
                }
            } else {
                proof {
                    assert(!eligible(*old(self), c as u64));
                }
            }
            c = c + 1;
        }

        if have_best {
            self.request = EventRequest::Ask { askee: best_askee, card: Card { num: best_cnum } };
            proof {
                assert(request_is_best_ask(*old(self), self.request)) by {
                    assert forall|p2: int, c2: u64|
                        opposing(*old(self), p2) && eligible(*old(self), c2) && den(s, c2) > 0
                            implies #[trigger] cnt(s, p2, c2) * best_den as int <= best_num as int
                            * den(s, c2) by {
                        assert(c2 < nc as u64);
                    }
                }
                assert(!ask_err(*old(self))) by {
                    if exists|p2: int| opposing(*old(self), p2) {
                        assert forall|c2: u64| eligible(*old(self), c2) implies den(s, c2) > 0 by {
                            let p2 = choose|p2: int| opposing(*old(self), p2);
                            assert(opp0 as int == 1 - (me as int % 2));
                            assert(opp0 < np);
                        }
                    }
                }
            }
        } else {
            proof {
                assert(!has_pair(*old(self))) by {
                    if has_pair(*old(self)) {
                        let c2 = choose|c2: u64| eligible(*old(self), c2);
                        let p2 = choose|p2: int| opposing(*old(self), p2);
                        assert(c2 < nc as u64);
                        assert(false);
                    }
                }
                assert(!ask_err(*old(self))) by {
                    if ask_err(*old(self)) {
                        let c2 = choose|c2: u64|
                            eligible(*old(self), c2) && den(old(self).slots@, c2) == 0;
                        let p2 = choose|p2: int| opposing(*old(self), p2);
                        assert(c2 < nc as u64);
                        assert(false);
                    }
                }
            }
        }
        Result::Ok(())
    }
}

} // verus!
