//! The belief engine: slot store and constraint updater.
//!
//! One engine instance belongs to one player (or to a pure observer). It
//! keeps one slot per physical card position still in play; a slot records
//! the position's presumed owner and the bitmask of card identities the
//! position can still hold. Masks only ever shrink, except that a declared
//! book's slots leave the pool entirely.

use vstd::prelude::*;

verus! {

use crate::bits::{
    nth, submask, low_mask, lemma_nth_ops, lemma_low_mask_nth, lemma_submask_and,
    lemma_submask_trans, lemma_zero_iff_no_bits,
};
use crate::card::{Card, Book, card_mask, book_mask, spec_book_of};
use vstd::arithmetic::div_mod::{
    lemma_fundamental_div_mod, lemma_fundamental_div_mod_converse, lemma_div_non_zero,
    lemma_mod_bound,
};
use vstd::arithmetic::mul::lemma_mul_is_commutative;
use crate::prune::{hall_settled, settled_for, hall_ok};
use crate::bits::lemma_and_nonzero;

/// One belief slot: a physical card position, its presumed owner, the set
/// of identities it can still hold, and whether the propagator must look
/// at it again.
#[derive(Debug, Clone, Copy)]
pub struct Slot {
    pub possible: u64,
    pub owner: usize,
    pub dirty: bool,
}

/// The decision recomputed after every ingested event.
#[derive(Debug, Clone, PartialEq)]
pub enum EventRequest {
    Ask { askee: usize, card: Card },
    Declare { book: Book, guessed_cards: Vec<(usize, Vec<Card>)> },
    NoAction,
}

/// Outcome of a public request.
#[derive(Debug, Clone, Copy, PartialEq)]
pub enum AskOutcome {
    Success,
    Failure,
}

/// A public request event: `asker` asked `askee` for `card`.
#[derive(Debug, Clone, PartialEq)]
pub struct Ask {
    pub asker: usize,
    pub askee: usize,
    pub card: Card,
    pub outcome: AskOutcome,
}

/// Outcome of a public declaration.
#[derive(Debug, Clone, Copy, PartialEq)]
pub enum DeclareOutcome {
    Success,
    Failure,
}

/// A public declaration event: the cards of `book` left play, and
/// `actual_cards` lists for every player the cards removed from that hand.
#[derive(Debug, Clone)]
pub struct Declare {
    pub declarer: usize,
    pub book: Book,
    pub actual_cards: Vec<(usize, Vec<Card>)>,
    pub outcome: DeclareOutcome,
}

/// One public event, as the game-rule layer reports it.
#[derive(Debug, Clone)]
pub enum Event {
    Ask(Ask),
    Declare(Declare),
}

/// The distinguished ways an update can find the event stream inconsistent
/// with the current belief state.
#[derive(Debug, Clone, Copy, PartialEq, Eq, Structural)]
pub enum EngineError {
    /// No slot of the asking player could carry the book constraint.
    NoSlotForBook,
    /// No slot of the named player can hold the named card.
    CardNotFound,
    /// A card the policy must weigh is held by no slot at all.
    NoHolderForCard,
    /// A consistency check matched every listed card but slots remained.
    SlotsLeftOver,
}

/// The per-player belief engine.
#[derive(Debug)]
pub struct Engine {
    pub num_players: usize,
    pub num_cards: usize,
    pub player_idx: usize,
    pub slots: Vec<Slot>,
    pub request: EventRequest,
}

/// Slot `j` exists, belongs to `p`, and is already confined to book `b`.
pub open spec fn owner_confined(s: Seq<Slot>, j: int, p: int, b: Book) -> bool {
    0 <= j < s.len() && s[j].owner as int == p && s[j].possible & !book_mask(b) == 0
}

/// Slot `j` exists, belongs to `p`, and can still hold a card of book `b`.
pub open spec fn owner_overlaps(s: Seq<Slot>, j: int, p: int, b: Book) -> bool {
    0 <= j < s.len() && s[j].owner as int == p && s[j].possible & book_mask(b) != 0
}

/// The first index at or after `k` whose slot satisfies `pred`.
pub open spec fn find_first(s: Seq<Slot>, pred: spec_fn(Slot) -> bool, k: int) -> Option<int>
    decreases s.len() - k,
{
    if k < 0 || k >= s.len() {
        Option::None
    } else if pred(s[k]) {
        Option::Some(k)
    } else {
        find_first(s, pred, k + 1)
    }
}

/// What `find_first` returns: the first match, or a guarantee that none exists.
pub proof fn lemma_find_first(s: Seq<Slot>, pred: spec_fn(Slot) -> bool, k: int)
    requires
        0 <= k <= s.len(),
    ensures
        match find_first(s, pred, k) {
            Option::None => forall|j: int| k <= j < s.len() ==> !#[trigger] pred(s[j]),
            Option::Some(i) => k <= i < s.len() && pred(s[i]) && forall|j: int|
                k <= j < i ==> !#[trigger] pred(s[j]),
        },
    decreases s.len() - k,
{
    if k < s.len() && !pred(s[k]) {
        lemma_find_first(s, pred, k + 1);
    }
}

/// A prefix without a match does not change where the first match is.
pub proof fn lemma_find_first_skip(s: Seq<Slot>, pred: spec_fn(Slot) -> bool, k: int)
    requires
        0 <= k <= s.len(),
        forall|j: int| 0 <= j < k ==> !#[trigger] pred(s[j]),
    ensures
        find_first(s, pred, 0) == find_first(s, pred, k),
    decreases k,
{
    if k > 0 {
        lemma_find_first_skip(s, pred, k - 1);
        assert(find_first(s, pred, k - 1) == find_first(s, pred, k));
    }
}

/// Division pinned to one block: `i / per == q` exactly on `q`'s block.
proof fn lemma_div_block(i: int, per: int, q: int)
    requires
        per > 0,
        0 <= i,
        0 <= q,
    ensures
        (i / per == q) <==> (q * per <= i && i < q * per + per),
{
    lemma_fundamental_div_mod(i, per);
    lemma_mod_bound(i, per);
    lemma_mul_is_commutative(per, i / per);
    lemma_mul_is_commutative(per, q);
    if q * per <= i && i < q * per + per {
        lemma_fundamental_div_mod_converse(i, per, q, i - q * per);
    }
}

/// `cards` holds id `i` among its first `k` entries.
pub open spec fn in_hand_prefix(cards: Seq<Card>, k: int, i: u64) -> bool {
    exists|t: int| 0 <= t < k && (#[trigger] cards[t]).num as u64 == i
}

/// `cards` holds id `i`.
pub open spec fn in_hand(cards: Seq<Card>, i: u64) -> bool {
    in_hand_prefix(cards, cards.len() as int, i)
}

/// Everything of an engine but its slot store is unchanged.
pub open spec fn same_frame(a: Engine, b: Engine) -> bool {
    &&& a.num_players == b.num_players
    &&& a.num_cards == b.num_cards
    &&& a.player_idx == b.player_idx
    &&& a.request == b.request
}

/// A slot of `p` whose mask equals the card's singleton mask.
pub open spec fn pred_exact(p: int, c: Card) -> spec_fn(Slot) -> bool {
    |sl: Slot| sl.owner as int == p && sl.possible == card_mask(c.num)
}

/// A slot of `p` confined to the card's book and still holding the card.
pub open spec fn pred_in_book(p: int, c: Card) -> spec_fn(Slot) -> bool {
    |sl: Slot|
        sl.owner as int == p && sl.possible & !book_mask(spec_book_of(c.num as int)) == 0
            && sl.possible & card_mask(c.num) != 0
}

/// A slot of `p` still holding the card.
pub open spec fn pred_containing(p: int, c: Card) -> spec_fn(Slot) -> bool {
    |sl: Slot| sl.owner as int == p && sl.possible & card_mask(c.num) != 0
}

/// A slot of `p` that can still hold a card of book `b`.
pub open spec fn pred_overlap(p: int, b: Book) -> spec_fn(Slot) -> bool {
    |sl: Slot| sl.owner as int == p && sl.possible & book_mask(b) != 0
}

/// The most specific slot of `p` consistent with holding exactly `c`:
/// first an exact singleton, else one confined to the card's book, else
/// any slot still holding the card.
pub open spec fn spec_find_card(s: Seq<Slot>, p: int, c: Card) -> Option<int> {
    match find_first(s, pred_exact(p, c), 0) {
        Option::Some(i) => Option::Some(i),
        Option::None => match find_first(s, pred_in_book(p, c), 0) {
            Option::Some(i) => Option::Some(i),
            Option::None => find_first(s, pred_containing(p, c), 0),
        },
    }
}

/// What a successful `has_book` leaves behind: the store itself when some
/// slot of `p` is already confined to `b`, else the first slot of `p`
/// overlapping `b` narrowed to the book; `None` when no slot overlaps.
pub open spec fn spec_has_book(s: Seq<Slot>, p: int, b: Book) -> Option<Seq<Slot>> {
    if exists|j: int| owner_confined(s, j, p, b) {
        Option::Some(s)
    } else {
        match find_first(s, pred_overlap(p, b), 0) {
            Option::Some(i) => Option::Some(
                s.update(
                    i,
                    (Slot { possible: s[i].possible & book_mask(b), owner: s[i].owner, dirty: true }),
                ),
            ),
            Option::None => Option::None,
        }
    }
}

/// What `move_card` leaves behind: the located slot reassigned to `to`
/// and narrowed to exactly the moved card.
pub open spec fn spec_move_card(s: Seq<Slot>, from: int, to: usize, c: Card) -> Option<Seq<Slot>> {
    match spec_find_card(s, from, c) {
        Option::Some(i) => Option::Some(
            s.update(i, (Slot { possible: card_mask(c.num), owner: to, dirty: true })),
        ),
        Option::None => Option::None,
    }
}

/// What `not_own_card` leaves behind: every slot of `p` loses the card's
/// bit and is marked dirty; other slots are untouched.
pub open spec fn spec_not_own_card(s: Seq<Slot>, p: int, c: Card) -> Seq<Slot> {
    Seq::new(
        s.len(),
        |j: int|
            if s[j].owner as int == p {
                Slot { possible: s[j].possible & !card_mask(c.num), owner: s[j].owner, dirty: true }
            } else {
                s[j]
            },
    )
}

impl Engine {
    /// Internal consistency of the slot store.
    pub open spec fn wf(self) -> bool {
        &&& 1 <= self.num_players as int
        &&& self.num_players as int <= self.num_cards as int
        &&& self.num_cards as int <= 54
        &&& self.slots@.len() <= self.num_cards as int
        &&& forall|j: int|
            0 <= j < self.slots@.len() ==> (#[trigger] self.slots@[j]).owner < self.num_players
        &&& forall|j: int|
            0 <= j < self.slots@.len() ==> submask(
                (#[trigger] self.slots@[j]).possible,
                low_mask(self.num_cards as u64),
            )
    }

    /// Builds the engine for one deal.
    ///
    /// With `player < num_players` and that player's dealt hand, the hand's
    /// slots start exactly known and every other slot starts at "any card
    /// not in the hand". With `player >= num_players` and an empty hand the
    /// engine is a pure observer: every slot starts fully unconstrained.
    pub fn init(num_players: usize, num_cards: usize, player: usize, cards: &[Card]) -> (r: Engine)
        requires
            1 <= num_players,
            num_players <= num_cards,
            num_cards <= 54,
            num_cards as int % num_players as int == 0,
            player < num_players ==> cards@.len() == num_cards as int / num_players as int,
            player >= num_players ==> cards@.len() == 0,
            forall|k: int| 0 <= k < cards@.len() ==> (#[trigger] cards@[k]).num < num_cards,
            forall|k1: int, k2: int|
                0 <= k1 < k2 < cards@.len() ==> cards@[k1].num != cards@[k2].num,
        ensures
            r.wf(),
            r.num_players == num_players,
            r.num_cards == num_cards,
            r.player_idx == player,
            r.request is NoAction,
            r.slots@.len() == num_cards as int,
            forall|j: int|
                0 <= j < num_cards as int ==> (#[trigger] r.slots@[j]).owner as int == j / (
                num_cards as int / num_players as int),
            forall|j: int| 0 <= j < num_cards as int ==> !(#[trigger] r.slots@[j]).dirty,
            forall|j: int|
                0 <= j < num_cards as int && (#[trigger] r.slots@[j]).owner as int == player as int
                    ==> r.slots@[j].possible == card_mask(
                    cards@[j - player as int * (num_cards as int / num_players as int)].num,
                ),
            forall|j: int, i: u64|
                0 <= j < num_cards as int && r.slots@[j].owner as int != player as int && i < 64
                    ==> #[trigger] nth(r.slots@[j].possible, i) == (i < num_cards as u64
                    && !in_hand(cards@, i)),
            hall_settled(r.slots@),
    {
        let per: usize = num_cards / num_players;
        proof {
            lemma_fundamental_div_mod(num_cards as int, num_players as int);
            assert(num_cards as int == num_players as int * per as int);
            lemma_div_non_zero(num_cards as int, num_players as int);
            lemma_low_mask_nth(num_cards as u64);
        }
        let all_mask: u64 = (1u64 << (num_cards as u64)) - 1;
        assert(all_mask == low_mask(num_cards as u64));

        // Remove the dealt hand from the default possibility mask.
        let mut default_mask: u64 = all_mask;
        let mut k: usize = 0;
        while k < cards.len()
            invariant
                k <= cards@.len(),
                num_cards <= 54,
                forall|t: int| 0 <= t < cards@.len() ==> (#[trigger] cards@[t]).num < num_cards,
                forall|t1: int, t2: int|
                    0 <= t1 < t2 < cards@.len() ==> cards@[t1].num != cards@[t2].num,
                forall|i: u64|
                    i < 64 ==> #[trigger] nth(default_mask, i) == (i < num_cards as u64
                        && !in_hand_prefix(cards@, k as int, i)),
            decreases cards@.len() - k,
        {
            let c: u8 = cards[k].num;
            let old_mask: Ghost<u64> = Ghost(default_mask);
            default_mask = default_mask ^ (1u64 << (c as u64));
            proof {
                lemma_nth_ops();
                assert forall|i: u64|
                    i < 64 implies #[trigger] nth(default_mask, i) == (i < num_cards as u64
                        && !in_hand_prefix(cards@, k as int + 1, i)) by {
                    assert(nth(default_mask, i) == (nth(old_mask@, i) != nth(
                        1u64 << (c as u64),
                        i,
                    )));
                    if i == c as u64 {
                        assert(!in_hand_prefix(cards@, k as int, i));
                        assert(in_hand_prefix(cards@, k as int + 1, i));
                    } else {
                        assert(in_hand_prefix(cards@, k as int + 1, i) == in_hand_prefix(
                            cards@,
                            k as int,
                            i,
                        ));
                    }
                }
            }
            k = k + 1;
        }
        proof {
            lemma_low_mask_nth(num_cards as u64);
            assert(submask(default_mask, low_mask(num_cards as u64)));
        }

        // Lay the slots out in deal order.
        let mut slots: Vec<Slot> = Vec::new();
        let mut consumed: usize = 0;
        let mut i: usize = 0;
        while i < num_cards
            invariant
                i <= num_cards,
                slots@.len() == i as int,
                per as int == num_cards as int / num_players as int,
                per >= 1,
                num_cards as int == num_players as int * per as int,
                num_cards <= 54,
                player < num_players ==> cards@.len() == per as int,
                player >= num_players ==> cards@.len() == 0,
                forall|t: int| 0 <= t < cards@.len() ==> (#[trigger] cards@[t]).num < num_cards,
                forall|i2: u64|
                    i2 < 64 ==> #[trigger] nth(default_mask, i2) == (i2 < num_cards as u64
                        && !in_hand(cards@, i2)),
                consumed == if player as int * per as int >= i as int {
                    0
                } else if i as int >= player as int * per as int + per as int {
                    per as int
                } else {
                    i as int - player as int * per as int
                },
                forall|j: int|
                    0 <= j < i as int ==> (#[trigger] slots@[j]).owner as int == j / per as int,
                forall|j: int| 0 <= j < i as int ==> !(#[trigger] slots@[j]).dirty,
                forall|j: int|
                    0 <= j < i as int && (#[trigger] slots@[j]).owner as int == player as int
                        ==> slots@[j].possible == card_mask(
                        cards@[j - player as int * per as int].num,
                    ),
                forall|j: int|
                    0 <= j < i as int && (#[trigger] slots@[j]).owner as int != player as int
                        ==> slots@[j].possible == default_mask,
                forall|j: int|
                    0 <= j < i as int ==> (#[trigger] slots@[j]).owner < num_players,
                forall|j: int|
                    0 <= j < i as int ==> submask(
                        (#[trigger] slots@[j]).possible,
                        low_mask(num_cards as u64),
                    ),
            decreases num_cards - i,
        {
            let owner: usize = i / per;
            proof {
                lemma_div_block(i as int, per as int, owner as int);
                assert(owner as int * per as int <= i as int);
                assert(owner < num_players) by {
                    if owner >= num_players {
                        assert(owner as int * per as int >= num_players as int * per as int)
                            by (nonlinear_arith)
                            requires
                                owner as int >= num_players as int,
                                per as int >= 1,
                        ;
                    }
                }
            }
            let possible: u64 = if owner == player {
                proof {
                    lemma_div_block(i as int, per as int, player as int);
                    assert(consumed == i as int - player as int * per as int);
                }
                let c: Card = cards[consumed];
                consumed = consumed + 1;
                1u64 << (c.num as u64)
            } else {
                proof {
                    lemma_div_block(i as int, per as int, player as int);
                }
                default_mask
            };
            proof {
                lemma_nth_ops();
                lemma_low_mask_nth(num_cards as u64);
                assert forall|i2: u64|
                    i2 < 64 && #[trigger] nth(possible, i2) implies nth(
                    low_mask(num_cards as u64),
                    i2,
                ) by {
                    assert(i2 < num_cards as u64);
                }
                assert(submask(possible, low_mask(num_cards as u64)));
            }
            slots.push(Slot { possible, owner, dirty: false });
            i = i + 1;
        }

        // A fresh store is already settled: own slots are disjoint
        // singletons and every other slot carries one shared default mask,
        // so any overlap between two slots is an equality of masks.
        proof {
            lemma_nth_ops();
            assert forall|j: int|
                0 <= j < num_cards as int implies #[trigger] settled_for(slots@, j) by {
                assert forall|k: int|
                    0 <= k < num_cards as int implies #[trigger] hall_ok(slots@, j, k) by {
                    let pj = slots@[j].possible;
                    let pk = slots@[k].possible;
                    if pk & pj != 0 {
                        lemma_and_nonzero(pk, pj);
                        let i = choose|i: u64| i < 64 && #[trigger] nth(pk, i) && nth(pj, i);
                        let jown = slots@[j].owner as int == player as int;
                        let kown = slots@[k].owner as int == player as int;
                        if jown {
                            lemma_div_block(j, per as int, player as int);
                            let tj = j - player as int * per as int;
                            assert(pj == card_mask(cards@[tj].num));
                            assert(i == cards@[tj].num as u64);
                            if kown {
                                lemma_div_block(k, per as int, player as int);
                                let tk = k - player as int * per as int;
                                assert(pk == card_mask(cards@[tk].num));
                                assert(i == cards@[tk].num as u64);
                                assert(tj == tk);
                                assert(pk == pj);
                            } else {
                                assert(nth(pk, i) == (i < num_cards as u64 && !in_hand(
                                    cards@,
                                    i,
                                )));
                                assert(in_hand_prefix(cards@, cards@.len() as int, i));
                                assert(false);
                            }
                        } else {
                            if kown {
                                lemma_div_block(k, per as int, player as int);
                                let tk = k - player as int * per as int;
                                assert(pk == card_mask(cards@[tk].num));
                                assert(i == cards@[tk].num as u64);
                                assert(nth(pj, i) == (i < num_cards as u64 && !in_hand(
                                    cards@,
                                    i,
                                )));
                                assert(in_hand_prefix(cards@, cards@.len() as int, i));
                                assert(false);
                            } else {
                                assert(pj == default_mask && pk == default_mask);
                            }
                        }
                    }
                }
            }
        }

        Engine {
            num_players,
            num_cards,
            player_idx: player,
            slots,
            request: EventRequest::NoAction,
        }
    }

    /// Finds the most specific slot of `player` consistent with holding
    /// exactly `card`, searching the given store: first a slot already
    /// narrowed to the card alone, else one confined to the card's book,
    /// else any slot that can still hold the card.
    pub fn find_card(&self, slots: &Vec<Slot>, player: usize, card: Card) -> (r: Option<usize>)
        requires
            card.num < 54,
        ensures
            match r {
                Option::Some(i) => spec_find_card(slots@, player as int, card) == Option::Some(
                    i as int,
                ) && i < slots@.len() && slots@[i as int].owner == player && slots@[i as int].possible
                    & card_mask(card.num) != 0,
                Option::None => spec_find_card(slots@, player as int, card) is None && forall|j: int|
                    0 <= j < slots@.len() ==> !((#[trigger] slots@[j]).owner == player && slots@[j].possible
                        & card_mask(card.num) != 0),
            },
    {
        let cmask: u64 = card.mask();
        let bmask: u64 = card.book().mask();
        let ghost pe = pred_exact(player as int, card);
        let ghost pb = pred_in_book(player as int, card);
        let ghost pc = pred_containing(player as int, card);
        let n: usize = slots.len();

        let mut i: usize = 0;
        while i < n
            invariant
                i <= n,
                n == slots@.len(),
                card.num < 54,
                cmask == card_mask(card.num),
                pe == pred_exact(player as int, card),
                forall|j: int| 0 <= j < i as int ==> !#[trigger] pe(slots@[j]),
            decreases n - i,
        {
            if slots[i].owner == player && slots[i].possible == cmask {
                proof {
                    assert(pe(slots@[i as int]));
                    lemma_find_first_skip(slots@, pe, i as int);
                    lemma_nth_ops();
                    assert(nth(cmask, card.num as u64));
                    assert(nth(slots@[i as int].possible & cmask, card.num as u64));
                    crate::bits::lemma_bit_nonzero(
                        slots@[i as int].possible & cmask,
                        card.num as u64,
                    );
                }
                return Option::Some(i);
            }
            i = i + 1;
        }
        proof {
            lemma_find_first_skip(slots@, pe, n as int);
        }

        let mut i2: usize = 0;
        while i2 < n
            invariant
                i2 <= n,
                n == slots@.len(),
                card.num < 54,
                cmask == card_mask(card.num),
                bmask == book_mask(spec_book_of(card.num as int)),
                pb == pred_in_book(player as int, card),
                find_first(slots@, pred_exact(player as int, card), 0) is None,
                forall|j: int| 0 <= j < i2 as int ==> !#[trigger] pb(slots@[j]),
            decreases n - i2,
        {
            if slots[i2].owner == player && slots[i2].possible & !bmask == 0 && slots[i2].possible
                & cmask != 0 {
                proof {
                    assert(pb(slots@[i2 as int]));
                    lemma_find_first_skip(slots@, pb, i2 as int);
                }
                return Option::Some(i2);
            }
            i2 = i2 + 1;
        }
        proof {
            lemma_find_first_skip(slots@, pb, n as int);
        }

        let mut i3: usize = 0;
        while i3 < n
            invariant
                i3 <= n,
                n == slots@.len(),
                card.num < 54,
                cmask == card_mask(card.num),
                pc == pred_containing(player as int, card),
                find_first(slots@, pred_exact(player as int, card), 0) is None,
                find_first(slots@, pred_in_book(player as int, card), 0) is None,
                forall|j: int| 0 <= j < i3 as int ==> !#[trigger] pc(slots@[j]),
            decreases n - i3,
        {
            if slots[i3].owner == player && slots[i3].possible & cmask != 0 {
                proof {
                    assert(pc(slots@[i3 as int]));
                    lemma_find_first_skip(slots@, pc, i3 as int);
                }
                return Option::Some(i3);
            }
            i3 = i3 + 1;
        }
        proof {
            lemma_find_first_skip(slots@, pc, n as int);
            assert forall|j: int|
                0 <= j < slots@.len() implies !((#[trigger] slots@[j]).owner == player
                && slots@[j].possible & card_mask(card.num) != 0) by {
                assert(!pc(slots@[j]));
            }
        }
        Option::None
    }

    /// Records that `player` provably holds a card of `book`. If some slot
    /// of the player is already confined to the book, nothing changes —
    /// calling this again is a no-op. Otherwise the first slot of the
    /// player that overlaps the book is narrowed to it. Fails when no slot
    /// of the player can hold any card of the book.
    pub fn has_book(&mut self, player: usize, book: Book) -> (r: Result<(), EngineError>)
        requires
            old(self).wf(),
        ensures
            final(self).wf(),
            same_frame(*old(self), *final(self)),
            final(self).slots@.len() == old(self).slots@.len(),
            match spec_has_book(old(self).slots@, player as int, book) {
                Option::Some(s) => r is Ok && final(self).slots@ == s,
                Option::None => r == Err::<(), EngineError>(EngineError::NoSlotForBook)
                    && *final(self) == *old(self),
            },
            r is Ok ==> exists|j: int|
                owner_confined(final(self).slots@, j, player as int, book),
            (exists|j: int| owner_confined(old(self).slots@, j, player as int, book))
                ==> *final(self) == *old(self),
    {
        let bmask: u64 = book.mask();
        let n: usize = self.slots.len();

        let mut i: usize = 0;
        while i < n
            invariant
                i <= n,
                n == self.slots@.len(),
                *self == *old(self),
                old(self).wf(),
                bmask == book_mask(book),
                forall|j: int|
                    0 <= j < i as int ==> !owner_confined(self.slots@, j, player as int, book),
            decreases n - i,
        {
            if self.slots[i].owner == player && self.slots[i].possible & !bmask == 0 {
                proof {
                    assert(owner_confined(self.slots@, i as int, player as int, book));
                }
                return Result::Ok(());
            }
            i = i + 1;
        }
        proof {
            assert forall|j: int|
                !owner_confined(old(self).slots@, j, player as int, book) by {
                if 0 <= j < self.slots@.len() {
                    assert(!owner_confined(self.slots@, j, player as int, book));
                }
            }
        }

        let ghost po = pred_overlap(player as int, book);
        let mut i2: usize = 0;
        while i2 < n
            invariant
                i2 <= n,
                n == self.slots@.len(),
                *self == *old(self),
                old(self).wf(),
                bmask == book_mask(book),
                po == pred_overlap(player as int, book),
                forall|j: int| !owner_confined(old(self).slots@, j, player as int, book),
                forall|j: int| 0 <= j < i2 as int ==> !#[trigger] po(self.slots@[j]),
            decreases n - i2,
        {
            if self.slots[i2].owner == player && self.slots[i2].possible & bmask != 0 {
                proof {
                    assert(po(self.slots@[i2 as int]));
                    lemma_find_first_skip(self.slots@, po, i2 as int);
                    assert(find_first(self.slots@, po, 0) == Option::Some(i2 as int));
                }
                let newp: u64 = self.slots[i2].possible & bmask;
                self.slots[i2].possible = newp;
                self.slots[i2].dirty = true;
                proof {
                    let orig = old(self).slots@;
                    let narrowed = Slot {
                        possible: orig[i2 as int].possible & book_mask(book),
                        owner: orig[i2 as int].owner,
                        dirty: true,
                    };
                    assert(self.slots@ =~= orig.update(i2 as int, narrowed));
                    lemma_submask_and(orig[i2 as int].possible, book_mask(book));
                    lemma_submask_trans(
                        newp,
                        orig[i2 as int].possible,
                        low_mask(old(self).num_cards as u64),
                    );
                    lemma_nth_ops();
                    lemma_zero_iff_no_bits(newp & !book_mask(book));
                    assert(owner_confined(self.slots@, i2 as int, player as int, book));
                }
                return Result::Ok(());
            }
            i2 = i2 + 1;
        }
        proof {
            lemma_find_first_skip(self.slots@, po, n as int);
            assert(find_first(self.slots@, po, 0) is None);
        }
        Result::Err(EngineError::NoSlotForBook)
    }

    /// Moves `card` from `from`'s hand to `to`'s: the most specific slot
    /// of `from` consistent with the card changes owner and becomes
    /// exactly the card. Fails when no slot of `from` can hold the card.
    pub fn move_card(&mut self, from: usize, to: usize, card: Card) -> (r: Result<
        (),
        EngineError,
    >)
        requires
            old(self).wf(),
            card.num < old(self).num_cards,
            to < old(self).num_players,
        ensures
            final(self).wf(),
            same_frame(*old(self), *final(self)),
            final(self).slots@.len() == old(self).slots@.len(),
            match spec_move_card(old(self).slots@, from as int, to, card) {
                Option::Some(s) => r is Ok && final(self).slots@ == s,
                Option::None => r == Err::<(), EngineError>(EngineError::CardNotFound)
                    && *final(self) == *old(self),
            },
    {
        let idx_opt: Option<usize> = self.find_card(&self.slots, from, card);
        match idx_opt {
            Option::Some(idx) => {
                let cmask: u64 = card.mask();
                self.slots[idx].owner = to;
                self.slots[idx].possible = cmask;
                self.slots[idx].dirty = true;
                proof {
                    let orig = old(self).slots@;
                    let moved = Slot { possible: card_mask(card.num), owner: to, dirty: true };
                    assert(self.slots@ =~= orig.update(idx as int, moved));
                    lemma_nth_ops();
                    lemma_low_mask_nth(old(self).num_cards as u64);
                    assert forall|t: u64|
                        t < 64 && #[trigger] nth(card_mask(card.num), t) implies nth(
                        low_mask(old(self).num_cards as u64),
                        t,
                    ) by {
                        assert(t == card.num as u64);
                    }
                    assert(submask(card_mask(card.num), low_mask(old(self).num_cards as u64)));
                }
                Result::Ok(())
            },
            Option::None => Result::Err(EngineError::CardNotFound),
        }
    }

    /// Records that `player` does not hold `card`: the card's bit leaves
    /// every slot of the player.
    pub fn not_own_card(&mut self, player: usize, card: Card) -> (r: ())
        requires
            old(self).wf(),
            card.num < 64,
        ensures
            final(self).wf(),
            same_frame(*old(self), *final(self)),
            final(self).slots@ == spec_not_own_card(old(self).slots@, player as int, card),
    {
        let cmask: u64 = card.mask();
        let n: usize = self.slots.len();
        let mut j: usize = 0;
        while j < n
            invariant
                j <= n,
                n == self.slots@.len(),
                old(self).wf(),
                same_frame(*old(self), *self),
                cmask == card_mask(card.num),
                self.num_cards == old(self).num_cards,
                self.slots@.len() == old(self).slots@.len(),
                forall|t: int|
                    j as int <= t < n as int ==> self.slots@[t] == old(self).slots@[t],
                forall|t: int|
                    0 <= t < j as int ==> self.slots@[t] == spec_not_own_card(
                        old(self).slots@,
                        player as int,
                        card,
                    )[t],
            decreases n - j,
        {
            if self.slots[j].owner == player {
                let newp: u64 = self.slots[j].possible & !cmask;
                self.slots[j].possible = newp;
                self.slots[j].dirty = true;
            }
            j = j + 1;
        }
        proof {
            assert(self.slots@ =~= spec_not_own_card(old(self).slots@, player as int, card));
            lemma_nth_ops();
            assert forall|t: int|
                0 <= t < self.slots@.len() implies submask(
                (#[trigger] self.slots@[t]).possible,
                low_mask(old(self).num_cards as u64),
            ) by {
                let oldp = old(self).slots@[t].possible;
                lemma_submask_and(oldp, !card_mask(card.num));
                lemma_submask_trans(
                    oldp & !card_mask(card.num),
                    oldp,
                    low_mask(old(self).num_cards as u64),
                );
            }
        }
    }
}

} // verus!
