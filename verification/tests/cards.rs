use fish_engine::card::{Book, Card, DisplayCard, Rank, Suit};

#[test]
fn book_of_sample_cards() {
    assert_eq!(Card { num: 0 }.book(), Book::LowDiamonds);
    assert_eq!(Card { num: 5 }.book(), Book::LowDiamonds);
    assert_eq!(Card { num: 6 }.book(), Book::HighDiamonds);
    assert_eq!(Card { num: 17 }.book(), Book::LowClubs);
    assert_eq!(Card { num: 30 }.book(), Book::HighHearts);
    assert_eq!(Card { num: 47 }.book(), Book::HighSpades);
    assert_eq!(Card { num: 48 }.book(), Book::Eights);
    assert_eq!(Card { num: 53 }.book(), Book::Eights);
}

#[test]
fn book_cards_are_consecutive_ids() {
    let cards = Book::LowClubs.cards();
    assert_eq!(cards.len(), 6);
    for (i, c) in cards.iter().enumerate() {
        assert_eq!(c.num as usize, 12 + i);
    }
    let eights = Book::Eights.cards();
    assert_eq!(eights[0].num, 48);
    assert_eq!(eights[5].num, 53);
}

#[test]
fn masks_are_bitwise() {
    assert_eq!(Card { num: 0 }.mask(), 1);
    assert_eq!(Card { num: 3 }.mask(), 8);
    assert_eq!(Book::LowDiamonds.mask(), 0x3f);
    assert_eq!(Book::HighDiamonds.mask(), 0x3f << 6);
    assert_eq!(Book::Eights.mask(), 0x3f << 48);
}

#[test]
fn book_masks_partition_the_deck() {
    let books = [
        Book::LowDiamonds,
        Book::HighDiamonds,
        Book::LowClubs,
        Book::HighClubs,
        Book::LowHearts,
        Book::HighHearts,
        Book::LowSpades,
        Book::HighSpades,
        Book::Eights,
    ];
    let mut union: u64 = 0;
    for b in books.iter() {
        assert_eq!(union & b.mask(), 0);
        union |= b.mask();
    }
    assert_eq!(union, (1u64 << 54) - 1);
    for n in 0..54u8 {
        let c = Card { num: n };
        assert_ne!(c.book().mask() & c.mask(), 0);
    }
}

#[test]
fn suit_and_rank_of_sample_cards() {
    assert_eq!(Card { num: 0 }.suit(), Some(Suit::Diamonds));
    assert_eq!(Card { num: 0 }.rank(), Some(Rank::Num(2)));
    assert_eq!(Card { num: 6 }.rank(), Some(Rank::Num(9)));
    assert_eq!(Card { num: 7 }.rank(), Some(Rank::Num(10)));
    assert_eq!(Card { num: 8 }.rank(), Some(Rank::Jack));
    assert_eq!(Card { num: 11 }.rank(), Some(Rank::Ace));
    assert_eq!(Card { num: 12 }.suit(), Some(Suit::Clubs));
    assert_eq!(Card { num: 48 }.suit(), Some(Suit::Diamonds));
    assert_eq!(Card { num: 48 }.rank(), Some(Rank::Num(8)));
    assert_eq!(Card { num: 51 }.suit(), Some(Suit::Spades));
    assert_eq!(Card { num: 52 }.suit(), None);
    assert_eq!(Card { num: 53 }.rank(), None);
}

#[test]
fn display_card_round_trips_over_the_deck() {
    for n in 0..54u8 {
        let c = Card { num: n };
        let d = c.display_card();
        assert_eq!(d.card(), c);
    }
    assert_eq!(
        Card { num: 52 }.display_card(),
        DisplayCard::Joker { big: false }
    );
    assert_eq!(
        Card { num: 53 }.display_card(),
        DisplayCard::Joker { big: true }
    );
}

#[test]
fn book_index_round_trips() {
    for i in 0..9u8 {
        assert_eq!(Book::from_index(i).index(), i);
    }
}
