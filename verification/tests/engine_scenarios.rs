use fish_engine::card::{Book, Card};
use fish_engine::engine::{
    Ask, AskOutcome, Declare, DeclareOutcome, Engine, EngineError, Event, EventRequest,
};

fn ask(asker: usize, askee: usize, num: u8, success: bool) -> Event {
    Event::Ask(Ask {
        asker,
        askee,
        card: Card { num },
        outcome: if success {
            AskOutcome::Success
        } else {
            AskOutcome::Failure
        },
    })
}

fn declare(declarer: usize, book: Book, hands: Vec<(usize, Vec<u8>)>, success: bool) -> Event {
    Event::Declare(Declare {
        declarer,
        book,
        actual_cards: hands
            .into_iter()
            .map(|(p, nums)| (p, nums.into_iter().map(|num| Card { num }).collect()))
            .collect(),
        outcome: if success {
            DeclareOutcome::Success
        } else {
            DeclareOutcome::Failure
        },
    })
}

fn row(owner: usize, bits: &[u8]) -> (usize, Vec<bool>) {
    (owner, bits.iter().map(|&b| b != 0).collect())
}

#[test]
fn successful_request_resolves_both_slots() {
    // Two players, two cards of one book, both unknown to the observer.
    let mut e = Engine::init(2, 2, 2, &[]);
    assert_eq!(e.update(ask(0, 1, 1, true)), Ok(()));
    // The moved slot is exactly card 1 and now belongs to player 0; the
    // remaining slot no longer admits card 1.
    let m = e.to_matrix();
    assert_eq!(m, vec![row(0, &[1, 0]), row(0, &[0, 1])]);
}

#[test]
fn failed_request_excludes_card_and_fires_book_constraint() {
    // Three players, two books, pure observer; a third hand keeps "nobody
    // among asker and askee holds card 2" satisfiable.
    let mut e = Engine::init(3, 12, 3, &[]);
    assert_eq!(e.update(ask(0, 1, 2, false)), Ok(()));
    let m = e.to_matrix();
    // One slot of the asker is now confined to the requested book (minus
    // the refused card); the parties' other slots merely lost that card;
    // the bystander's slots are untouched.
    let confined = &[1, 1, 0, 1, 1, 1, 0, 0, 0, 0, 0, 0];
    let others = &[1, 1, 0, 1, 1, 1, 1, 1, 1, 1, 1, 1];
    let full = &[1, 1, 1, 1, 1, 1, 1, 1, 1, 1, 1, 1];
    let mut expected = vec![row(0, confined)];
    for _ in 0..3 {
        expected.push(row(0, others));
    }
    for _ in 0..4 {
        expected.push(row(1, others));
    }
    for _ in 0..4 {
        expected.push(row(2, full));
    }
    assert_eq!(m, expected);
}

#[test]
fn declare_removes_named_slots_regardless_of_guesses() {
    // The engine removes the declared book's slots from ground truth
    // alone; whether the declarer guessed its teammates' holdings right
    // never reaches the belief model.
    let mut e = Engine::init(2, 6, 2, &[]);
    let ev = declare(0, Book::LowDiamonds, vec![(0, vec![0, 1, 2]), (1, vec![3, 4, 5])], false);
    assert_eq!(e.update(ev), Ok(()));
    assert_eq!(e.to_matrix(), vec![]);
}

#[test]
fn declare_fails_only_when_a_card_cannot_be_placed() {
    let mut e = Engine::init(2, 12, 2, &[]);
    // Both sides learn that player 0 and player 1 lack card 2 ...
    assert_eq!(e.update(ask(0, 1, 2, false)), Ok(()));
    // ... so a declaration claiming player 0 held card 2 cannot be placed.
    let ev = declare(0, Book::LowDiamonds, vec![(0, vec![0, 1, 2]), (1, vec![3, 4, 5])], true);
    assert_eq!(e.update(ev), Err(EngineError::CardNotFound));
}

#[test]
fn impossible_success_reports_card_not_found() {
    let mut e = Engine::init(2, 6, 2, &[]);
    assert_eq!(e.update(ask(0, 1, 3, false)), Ok(()));
    // Both hands were just shown not to hold card 3; moving it is
    // inconsistent with the belief state.
    assert_eq!(e.update(ask(0, 1, 3, true)), Err(EngineError::CardNotFound));
}

#[test]
fn request_without_book_stake_reports_no_slot() {
    let mut e = Engine::init(2, 12, 2, &[]);
    let ev = declare(0, Book::LowDiamonds, vec![(0, vec![0, 1, 2]), (1, vec![3, 4, 5])], true);
    assert_eq!(e.update(ev), Ok(()));
    // The whole low-diamond book has left play: no slot of the asker can
    // carry the book constraint any more.
    assert_eq!(e.update(ask(0, 1, 2, true)), Err(EngineError::NoSlotForBook));
}

#[test]
fn unpriceable_card_reports_no_holder() {
    // Player 0's own engine, holding cards 0, 1, 2 of six.
    let hand = [Card { num: 0 }, Card { num: 1 }, Card { num: 2 }];
    let mut e = Engine::init(2, 6, 0, &hand);
    // A (false) public failure removes card 3 from every slot; the policy
    // must weigh card 3 but no slot can hold it.
    assert_eq!(e.update(ask(1, 0, 3, false)), Err(EngineError::NoHolderForCard));
    assert_eq!(e.request, EventRequest::NoAction);
}

#[test]
fn decision_is_deterministic_with_unique_maximum() {
    // After a public exchange, exactly one (opponent, card) pair has
    // certainty; the emitted ask never varies across runs.
    for _ in 0..8 {
        let hand = [Card { num: 0 }, Card { num: 1 }, Card { num: 2 }];
        let mut e = Engine::init(4, 12, 0, &hand);
        assert_eq!(e.update(ask(1, 2, 3, true)), Ok(()));
        assert_eq!(
            e.request,
            EventRequest::Ask { askee: 1, card: Card { num: 3 } }
        );
    }
}

#[test]
fn ask_goes_to_the_strictly_better_chance() {
    // After a public failure, the bystanders hold card 3 with chance 1/2
    // each while the refused player holds it with chance 0; the ask must
    // move off the first-scanned pair onto the strictly better one.
    for _ in 0..8 {
        let hand = [Card { num: 0 }, Card { num: 1 }, Card { num: 2 }];
        let mut e = Engine::init(4, 12, 0, &hand);
        assert_eq!(e.update(ask(1, 0, 3, false)), Ok(()));
        assert_eq!(
            e.request,
            EventRequest::Ask { askee: 3, card: Card { num: 3 } }
        );
    }
}

#[test]
fn team_knowledge_requests_declare_across_hands() {
    // Player 0 holds four low diamonds; a public exchange resolves the
    // remaining two into teammate 2's hand. The declare request gathers
    // the guesses per team player in ascending order.
    let hand: Vec<Card> = (0..4u8).map(|num| Card { num }).collect();
    let mut e = Engine::init(3, 12, 0, &hand);
    assert_eq!(e.update(ask(2, 1, 4, true)), Ok(()));
    match &e.request {
        EventRequest::Declare { book, guessed_cards } => {
            assert_eq!(*book, Book::LowDiamonds);
            let flat: Vec<(usize, Vec<u8>)> = guessed_cards
                .iter()
                .map(|(p, cs)| (*p, cs.iter().map(|c| c.num).collect()))
                .collect();
            assert_eq!(flat, vec![(0, vec![0, 1, 2, 3]), (2, vec![4, 5])]);
        },
        other => panic!("expected a declare request, got {:?}", other),
    }
}

#[test]
fn has_book_is_idempotent() {
    let mut e = Engine::init(2, 12, 2, &[]);
    assert_eq!(e.has_book(0, Book::LowDiamonds), Ok(()));
    let first = e.to_matrix();
    assert_eq!(e.has_book(0, Book::LowDiamonds), Ok(()));
    assert_eq!(e.to_matrix(), first);
}

#[test]
fn prune_is_idempotent_at_its_fixed_point() {
    let mut e = Engine::init(2, 12, 2, &[]);
    assert_eq!(e.has_book(0, Book::LowDiamonds), Ok(()));
    e.prune();
    let first = e.to_matrix();
    e.prune();
    assert_eq!(e.to_matrix(), first);
}

#[test]
fn self_aware_init_knows_its_own_hand() {
    let hand = [Card { num: 0 }, Card { num: 2 }, Card { num: 4 }];
    let e = Engine::init(2, 6, 0, &hand);
    let m = e.to_matrix();
    assert_eq!(
        m,
        vec![
            row(0, &[1, 0, 0, 0, 0, 0]),
            row(0, &[0, 0, 1, 0, 0, 0]),
            row(0, &[0, 0, 0, 0, 1, 0]),
            row(1, &[0, 1, 0, 1, 0, 1]),
            row(1, &[0, 1, 0, 1, 0, 1]),
            row(1, &[0, 1, 0, 1, 0, 1]),
        ]
    );
}

#[test]
fn full_knowledge_requests_a_declaration() {
    let hand: Vec<Card> = (0..6u8).map(|num| Card { num }).collect();
    let mut e = Engine::init(1, 6, 0, &hand);
    assert_eq!(e.update_request(), Ok(()));
    match &e.request {
        EventRequest::Declare { book, guessed_cards } => {
            assert_eq!(*book, Book::LowDiamonds);
            assert_eq!(guessed_cards.len(), 1);
            assert_eq!(guessed_cards[0].0, 0);
            let nums: Vec<u8> = guessed_cards[0].1.iter().map(|c| c.num).collect();
            assert_eq!(nums, vec![0, 1, 2, 3, 4, 5]);
        },
        other => panic!("expected a declare request, got {:?}", other),
    }
}

#[test]
fn full_deck_init_is_sane() {
    // The reference deal: six players, fifty-four cards, nine each.
    let hand: Vec<Card> = (0..9u8).map(|num| Card { num }).collect();
    let mut e = Engine::init(6, 54, 0, &hand);
    assert_eq!(e.update_request(), Ok(()));
    let truth: Vec<(usize, Vec<Card>)> = (0..6usize)
        .map(|p| (p, (p * 9..(p + 1) * 9).map(|num| Card { num: num as u8 }).collect()))
        .collect();
    assert_eq!(e.assert_sanity(&truth), Ok(()));
}

#[test]
fn sanity_check_accepts_true_hands() {
    let mut e = Engine::init(2, 2, 2, &[]);
    assert_eq!(e.update(ask(0, 1, 1, true)), Ok(()));
    let truth = vec![(0usize, vec![Card { num: 0 }, Card { num: 1 }])];
    assert_eq!(e.assert_sanity(&truth), Ok(()));
}

#[test]
fn sanity_check_rejects_misplaced_cards() {
    let e = Engine::init(2, 2, 2, &[]);
    // Claiming player 0 holds both cards leaves player 1's slot unmatched.
    let wrong = vec![(0usize, vec![Card { num: 0 }, Card { num: 1 }])];
    assert_eq!(e.assert_sanity(&wrong), Err(EngineError::CardNotFound));
}

#[test]
fn sanity_check_rejects_leftover_slots() {
    let e = Engine::init(2, 2, 2, &[]);
    let partial = vec![(0usize, vec![Card { num: 0 }])];
    assert_eq!(e.assert_sanity(&partial), Err(EngineError::SlotsLeftOver));
}
