//! Card and book identity model.
//!
//! A card is a dense id below the deck size; ids 52 and 53 are the jokers.
//! Consecutive runs of six ids form the nine disjoint books. All maps from
//! an id to its book, suit and rank are pure functions, and the map from a
//! displayed card back to its id inverts them wherever it is defined.

use vstd::prelude::*;

verus! {

use crate::bits::nth;

#[derive(Debug, PartialEq, Eq, Structural)]
pub enum Suit {
    Diamonds,
    Clubs,
    Hearts,
    Spades,
}

#[derive(Debug, PartialEq, Eq, Structural)]
pub enum Rank {
    Num(u8),
    Jack,
    Queen,
    King,
    Ace,
}

/// How a card shows to a player: a standard rank-suit pair or a joker.
#[derive(Debug, PartialEq, Eq, Structural)]
pub enum DisplayCard {
    Standard { suit: Suit, rank: Rank },
    Joker { big: bool },
}

/// A card identity, as a dense id.
#[derive(Clone, Copy, Hash, Eq, PartialEq, PartialOrd, Ord, Debug, Structural)]
pub struct Card {
    pub num: u8,
}

/// One of the nine disjoint six-card books.
#[derive(Clone, Hash, Copy, PartialEq, Eq, PartialOrd, Ord, Debug, Structural)]
pub enum Book {
    LowDiamonds,  // 2-7
    HighDiamonds, // 9-A
    LowClubs,
    HighClubs,
    LowHearts,
    HighHearts,
    LowSpades,
    HighSpades,
    Eights,
}

/// The book that card id `n` belongs to.
pub open spec fn spec_book_of(n: int) -> Book {
    if n < 6 {
        Book::LowDiamonds
    } else if n < 12 {
        Book::HighDiamonds
    } else if n < 18 {
        Book::LowClubs
    } else if n < 24 {
        Book::HighClubs
    } else if n < 30 {
        Book::LowHearts
    } else if n < 36 {
        Book::HighHearts
    } else if n < 42 {
        Book::LowSpades
    } else if n < 48 {
        Book::HighSpades
    } else {
        Book::Eights
    }
}

/// The position of a book in the fixed book order.
pub open spec fn spec_book_index(b: Book) -> u64 {
    match b {
        Book::LowDiamonds => 0,
        Book::HighDiamonds => 1,
        Book::LowClubs => 2,
        Book::HighClubs => 3,
        Book::LowHearts => 4,
        Book::HighHearts => 5,
        Book::LowSpades => 6,
        Book::HighSpades => 7,
        Book::Eights => 8,
    }
}

/// The singleton bitmask of card id `n`.
pub open spec fn card_mask(n: u8) -> u64 {
    1u64 << (n as u64)
}

/// The bitmask holding the six member cards of `b`.
pub open spec fn book_mask(b: Book) -> u64 {
    0x3fu64 << ((6 * spec_book_index(b)) as u64)
}

/// A block of six ones anywhere in the word, read bit by bit.
proof fn lemma_six_bit_block()
    by (bit_vector)
    ensures
        forall|k: u64, i: u64|
            k <= 48 && i < 64 ==> (#[trigger] nth(0x3fu64 << k, i)) == (k <= i < k + 6),
{
}

/// Which bits a book's mask holds: exactly its six member ids.
pub proof fn lemma_book_mask_nth(b: Book)
    ensures
        forall|i: u64|
            i < 64 ==> #[trigger] nth(book_mask(b), i) == (6 * spec_book_index(b) <= i
                < 6 * spec_book_index(b) + 6),
{
    lemma_six_bit_block();
    assert(6 * spec_book_index(b) <= 48);
}

/// Every valid card id lies in exactly one book's mask.
pub proof fn lemma_book_partition(c: u64)
    requires
        c < 54,
    ensures
        nth(book_mask(spec_book_of(c as int)), c),
        forall|b: Book| b != spec_book_of(c as int) ==> !nth(book_mask(b), c),
{
    lemma_book_mask_nth(spec_book_of(c as int));
    assert forall|b: Book| b != spec_book_of(c as int) implies !nth(book_mask(b), c) by {
        lemma_book_mask_nth(b);
    }
}

impl Card {
    /// The book this card belongs to.
    pub fn book(&self) -> (b: Book)
        requires
            self.num < 54,
        ensures
            b == spec_book_of(self.num as int),
    {
        if self.num < 6 {
            Book::LowDiamonds
        } else if self.num < 12 {
            Book::HighDiamonds
        } else if self.num < 18 {
            Book::LowClubs
        } else if self.num < 24 {
            Book::HighClubs
        } else if self.num < 30 {
            Book::LowHearts
        } else if self.num < 36 {
            Book::HighHearts
        } else if self.num < 42 {
            Book::LowSpades
        } else if self.num < 48 {
            Book::HighSpades
        } else {
            Book::Eights
        }
    }

    /// This card's singleton bitmask.
    pub fn mask(&self) -> (m: u64)
        requires
            self.num < 64,
        ensures
            m == card_mask(self.num),
    {
        1u64 << (self.num as u64)
    }

    /// The suit of this card, when it has one.
    pub open spec fn spec_suit(self) -> Option<Suit> {
        if self.num >= 52 {
            None
        } else if self.num < 12 {
            Some(Suit::Diamonds)
        } else if self.num < 24 {
            Some(Suit::Clubs)
        } else if self.num < 36 {
            Some(Suit::Hearts)
        } else if self.num < 48 {
            Some(Suit::Spades)
        } else if self.num == 48 {
            Some(Suit::Diamonds)
        } else if self.num == 49 {
            Some(Suit::Clubs)
        } else if self.num == 50 {
            Some(Suit::Hearts)
        } else {
            Some(Suit::Spades)
        }
    }

    /// The suit of this card; `None` for a joker or an id past the deck.
    pub fn suit(&self) -> (r: Option<Suit>)
        ensures
            r == self.spec_suit(),
    {
        if self.num >= 52 {
            None
        } else if self.num < 12 {
            Some(Suit::Diamonds)
        } else if self.num < 24 {
            Some(Suit::Clubs)
        } else if self.num < 36 {
            Some(Suit::Hearts)
        } else if self.num < 48 {
            Some(Suit::Spades)
        } else if self.num == 48 {
            Some(Suit::Diamonds)
        } else if self.num == 49 {
            Some(Suit::Clubs)
        } else if self.num == 50 {
            Some(Suit::Hearts)
        } else {
            Some(Suit::Spades)
        }
    }

    /// The rank of this card, when it has one.
    pub open spec fn spec_rank(self) -> Option<Rank> {
        if self.num >= 52 {
            None
        } else {
            let q = self.num as int / 6;
            let r = self.num as int % 6;
            if q == 8 {
                Some(Rank::Num(8))
            } else if q % 2 == 0 {
                Some(Rank::Num((r + 2) as u8))
            } else if r == 0 {
                Some(Rank::Num(9))
            } else if r == 1 {
                Some(Rank::Num(10))
            } else if r == 2 {
                Some(Rank::Jack)
            } else if r == 3 {
                Some(Rank::Queen)
            } else if r == 4 {
                Some(Rank::King)
            } else {
                Some(Rank::Ace)
            }
        }
    }

    /// The rank of this card; `None` for a joker or an id past the deck.
    pub fn rank(&self) -> (res: Option<Rank>)
        ensures
            res == self.spec_rank(),
    {
        if self.num >= 52 {
            None
        } else {
            let q: u8 = self.num / 6;
            let r: u8 = self.num % 6;
            if q == 8 {
                Some(Rank::Num(8))
            } else if q % 2 == 0 {
                Some(Rank::Num(r + 2))
            } else if r == 0 {
                Some(Rank::Num(9))
            } else if r == 1 {
                Some(Rank::Num(10))
            } else if r == 2 {
                Some(Rank::Jack)
            } else if r == 3 {
                Some(Rank::Queen)
            } else if r == 4 {
                Some(Rank::King)
            } else {
                Some(Rank::Ace)
            }
        }
    }

    /// The displayed form of this card.
    pub open spec fn spec_display_card(self) -> DisplayCard {
        if self.num == 52 {
            DisplayCard::Joker { big: false }
        } else if self.num == 53 {
            DisplayCard::Joker { big: true }
        } else {
            DisplayCard::Standard {
                suit: self.spec_suit()->Some_0,
                rank: self.spec_rank()->Some_0,
            }
        }
    }

    /// Turns the id into its displayed form.
    pub fn display_card(&self) -> (r: DisplayCard)
        requires
            self.num < 54,
        ensures
            r == self.spec_display_card(),
    {
        if self.num == 52 {
            return DisplayCard::Joker { big: false };
        }
        if self.num == 53 {
            return DisplayCard::Joker { big: true };
        }
        let suit = self.suit().unwrap();
        let rank = self.rank().unwrap();
        DisplayCard::Standard { suit, rank }
    }
}

impl DisplayCard {
    /// A displayed card that a real card id can carry.
    pub open spec fn wf(self) -> bool {
        match self {
            DisplayCard::Joker { .. } => true,
            DisplayCard::Standard { suit, rank } => match rank {
                Rank::Num(n) => 2 <= n <= 10,
                _ => true,
            },
        }
    }

    /// The card id of this displayed form.
    pub open spec fn spec_card(self) -> Card {
        match self {
            DisplayCard::Joker { big } => Card { num: if big { 53 } else { 52 } },
            DisplayCard::Standard { suit, rank } => {
                let suit_offset: int = match suit {
                    Suit::Diamonds => 0,
                    Suit::Clubs => 1,
                    Suit::Hearts => 2,
                    Suit::Spades => 3,
                };
                if rank == Rank::Num(8u8) {
                    Card { num: (8 * 6 + suit_offset) as u8 }
                } else {
                    let rank_index: int = match rank {
                        Rank::Num(n) => if n <= 7 {
                            n - 2
                        } else {
                            n - 3
                        },
                        Rank::Jack => 8,
                        Rank::Queen => 9,
                        Rank::King => 10,
                        Rank::Ace => 11,
                    };
                    Card { num: (suit_offset * 12 + rank_index) as u8 }
                }
            },
        }
    }

    /// Turns the displayed form back into its card id.
    pub fn card(&self) -> (r: Card)
        requires
            self.wf(),
        ensures
            r == self.spec_card(),
    {
        match self {
            DisplayCard::Joker { big } => {
                let num: u8 = if *big {
                    53
                } else {
                    52
                };
                Card { num }
            },
            DisplayCard::Standard { suit, rank } => {
                let suit_offset: u8 = match suit {
                    Suit::Diamonds => 0,
                    Suit::Clubs => 1,
                    Suit::Hearts => 2,
                    Suit::Spades => 3,
                };
                if *rank == Rank::Num(8) {
                    return Card { num: 8 * 6 + suit_offset };
                }
                let rank_index: u8 = match rank {
                    Rank::Num(n) => if *n <= 7 {
                        *n - 2
                    } else {
                        *n - 3
                    },
                    Rank::Jack => 8,
                    Rank::Queen => 9,
                    Rank::King => 10,
                    Rank::Ace => 11,
                };
                Card { num: suit_offset * 12 + rank_index }
            },
        }
    }
}

/// Displaying a card and reading the display back yields the same id:
/// the id-to-display map is injective over the whole deck.
pub proof fn lemma_display_card_inverse(c: Card)
    requires
        c.num < 54,
    ensures
        c.spec_display_card().wf(),
        c.spec_display_card().spec_card() == c,
{
}

impl Book {
    /// This book's position in the fixed book order.
    pub fn index(&self) -> (r: u8)
        ensures
            r as int == spec_book_index(*self) as int,
    {
        match self {
            Book::LowDiamonds => 0,
            Book::HighDiamonds => 1,
            Book::LowClubs => 2,
            Book::HighClubs => 3,
            Book::LowHearts => 4,
            Book::HighHearts => 5,
            Book::LowSpades => 6,
            Book::HighSpades => 7,
            Book::Eights => 8,
        }
    }

    /// The book at a position in the fixed book order.
    pub fn from_index(i: u8) -> (r: Book)
        requires
            i < 9,
        ensures
            spec_book_index(r) as int == i as int,
    {
        if i == 0 {
            Book::LowDiamonds
        } else if i == 1 {
            Book::HighDiamonds
        } else if i == 2 {
            Book::LowClubs
        } else if i == 3 {
            Book::HighClubs
        } else if i == 4 {
            Book::LowHearts
        } else if i == 5 {
            Book::HighHearts
        } else if i == 6 {
            Book::LowSpades
        } else if i == 7 {
            Book::HighSpades
        } else {
            Book::Eights
        }
    }

    /// The six member cards of this book, in id order.
    pub fn cards(&self) -> (r: Vec<Card>)
        ensures
            r@.len() == 6,
            forall|i: int|
                0 <= i < 6 ==> (#[trigger] r@[i]).num == 6 * spec_book_index(*self) + i,
    {
        let offset: u8 = self.index();
        let mut output: Vec<Card> = Vec::new();
        let mut i: u8 = 0;
        while i < 6
            invariant
                i <= 6,
                offset as int == spec_book_index(*self) as int,
                output@.len() == i as int,
                forall|j: int|
                    0 <= j < i as int ==> (#[trigger] output@[j]).num == 6 * spec_book_index(*self)
                        + j,
            decreases 6 - i,
        {
            output.push(Card { num: offset * 6 + i });
            i = i + 1;
        }
        output
    }

    /// This book's six-card bitmask.
    pub fn mask(&self) -> (m: u64)
        ensures
            m == book_mask(*self),
    {
        let idx: u8 = self.index();
        0x3fu64 << ((6 * idx) as u64)
    }
}

} // verus!
