use solitario::{
    AcePile, Card, CardNum, GamePile, GamePileMovingError, MoveMakingError, MoveOutcome,
    ParsedMove, Suit, Table,
};

fn empty_piles() -> Vec<GamePile> {
    (0..7).map(|_| GamePile::new()).collect()
}

fn total_cards(table: &Table) -> usize {
    let in_piles: usize = table.piles.iter().map(|p| p.cards.len()).sum();
    let in_aces: usize = table.aces.iter().map(|a| a.cards.len()).sum();
    in_piles + in_aces + table.stack.len() + table.passed_stack.len()
}

#[test]
fn same_suit_mismatches() {
    let mut table = Table::new();
    let five = Card::new_fr(Suit::Coppe, 5);
    let six = Card::new_fr(Suit::Coppe, 6);

    // Correct number, wrong suit
    table.piles[0].cards[0] = five;
    table.piles[1].cards[1] = six;

    assert!(table.move_pile(0, 1, 1).is_err());

    assert_eq!(table.piles[0].cards[0], five); // Didn't get moved
    assert_eq!(table.piles[1].cards[1], six); // It didn't get changed
}

#[test]
fn diff_suit_mismatches() {
    let mut table = Table::new();
    let five = Card::new_fr(Suit::Bastoni, 5);
    let six = Card::new_fr(Suit::Coppe, 6);

    // Correct number, wrong suit
    table.piles[0].cards[0] = five;
    table.piles[1].cards[1] = six;

    assert!(table.move_pile(0, 1, 1).is_err());

    assert_eq!(table.piles[0].cards[0], five); // Didn't get moved
    assert_eq!(table.piles[1].cards[1], six); // It didn't get changed
}

#[test]
fn wrong_num_mismatches() {
    // We can try them all
    for n in 1..=13 {
        if n == 5 {
            continue; // Don't want to test the correct one
        }
        let mut table = Table::new();
        let ith = Card::new_fr(Suit::Denari, n);
        let six = Card::new_fr(Suit::Coppe, 6);

        // Correct suit, wrong number
        table.piles[0].cards[0] = ith;
        table.piles[1].cards[1] = six;

        assert!(table.move_pile(0, 1, 1).is_err());

        assert_eq!(table.piles[0].cards[0], ith); // Didn't get moved
        assert_eq!(table.piles[1].cards[1], six); // It didn't get changed
    }
}

#[test]
fn suit_match_legality() {
    let couples = [
        (Card::new_fr(Suit::Denari, 5), Card::new_fr(Suit::Coppe, 6)),
        (Card::new_fr(Suit::Coppe, 5), Card::new_fr(Suit::Denari, 6)),
        (Card::new_fr(Suit::Denari, 5), Card::new_fr(Suit::Bastoni, 6)),
        (Card::new_fr(Suit::Bastoni, 5), Card::new_fr(Suit::Denari, 6)),
        (Card::new_fr(Suit::Spade, 5), Card::new_fr(Suit::Coppe, 6)),
        (Card::new_fr(Suit::Coppe, 5), Card::new_fr(Suit::Spade, 6)),
        (Card::new_fr(Suit::Spade, 5), Card::new_fr(Suit::Bastoni, 6)),
        (Card::new_fr(Suit::Bastoni, 5), Card::new_fr(Suit::Spade, 6)),
    ];

    for (five, six) in couples {
        let mut table = Table::new();
        table.piles[0].cards[0] = five;
        table.piles[1].cards[1] = six;

        assert!(table.move_pile(0, 1, 1).is_ok());

        assert!(table.piles[0].cards.is_empty()); // Didn't get moved
        assert_eq!(table.piles[1].cards[1], six); // It didn't get changed
        assert_eq!(table.piles[1].cards[2], five); // We gained a five
    }
}

#[test]
fn king_to_empty_pile() {
    let mut table = Table::new();
    table.piles = empty_piles();
    table.piles[0].cards.push(Card::new_fr(Suit::Coppe, 13));
    table.piles[0].revealed = 1; // King is revealed

    let _ = table.move_pile(0, 1, 1); // Move King to empty pile

    assert!(table.piles[0].cards.is_empty()); // It got moved
    assert_eq!(table.piles[1].cards.get(0), Some(&Card::new_fr(Suit::Coppe, 13))); // It arrived
}

#[test]
fn legal_placement_updates_revealed_counts() {
    let mut table = Table::new();
    let five = Card::new_fr(Suit::Denari, 5);
    let six = Card::new_fr(Suit::Coppe, 6);
    table.piles[0].cards[0] = five;
    table.piles[1].cards[1] = six;
    let revealed_before_src = table.piles[0].revealed;
    let revealed_before_dst = table.piles[1].revealed;
    assert_eq!(revealed_before_src, 1);
    assert_eq!(revealed_before_dst, 1);

    assert!(table.move_pile(0, 1, 1).is_ok());

    assert_eq!(table.piles[0].revealed, 0); // the source is now empty
    assert_eq!(table.piles[1].revealed, 2); // the five joined face up
}

#[test]
fn move_zero_cards_fails_for_any_pair() {
    for from in 0..7u8 {
        for to in 0..7u8 {
            let mut table = Table::new();
            let before_total = total_cards(&table);
            assert_eq!(
                table.move_pile(from, to, 0),
                Err(GamePileMovingError::AmountWasZero)
            );
            assert_eq!(total_cards(&table), before_total);
        }
    }
}

#[test]
fn move_more_than_revealed_fails() {
    let mut table = Table::new();
    // Every freshly dealt pile has exactly one revealed card.
    assert_eq!(
        table.move_pile(2, 4, 3),
        Err(GamePileMovingError::NotEnoughRevealedCards(3))
    );
    assert_eq!(table.piles[2].cards.len(), 3);
    assert_eq!(table.piles[4].cards.len(), 5);
}

#[test]
fn move_pile_out_of_range_and_repeated() {
    let mut table = Table::new();
    assert_eq!(table.move_pile(7, 0, 1), Err(GamePileMovingError::PileOutOfRange));
    assert_eq!(table.move_pile(0, 9, 1), Err(GamePileMovingError::PileOutOfRange));
    assert_eq!(table.move_pile(3, 3, 1), Err(GamePileMovingError::IllegalMove));
}

#[test]
fn new_table_deal_shape() {
    let table = Table::new();
    assert_eq!(table.piles.len(), 7);
    for (i, pile) in table.piles.iter().enumerate() {
        assert_eq!(pile.cards.len(), i + 1);
        assert_eq!(pile.revealed, 1);
    }
    assert_eq!(table.aces.len(), 4);
    for ace in &table.aces {
        assert!(ace.cards.is_empty());
    }
    assert_eq!(table.stack.len(), 24);
    assert_eq!(table.passed_stack.len(), 0);
    assert_eq!(table.moves, 0);
    assert_eq!(total_cards(&table), 52);
}

#[test]
fn card_conservation_across_moves() {
    let mut table = Table::new();
    let commands = ["n", "next", "s;0", "s;a0", "m0;1;1", "m1;a0", "ma0;3", "cycle", "n", "u"];
    for cmd in commands {
        let _ = table.make_move(cmd);
        assert_eq!(total_cards(&table), 52);
    }
}

#[test]
fn draw_moves_stock_top_under_waste() {
    let mut table = Table::new();
    table.piles = empty_piles();
    table.stack = solitario::Deck::new();
    table.passed_stack = solitario::Deck::new();
    let a = Card::new_fr(Suit::Denari, 1);
    let b = Card::new_fr(Suit::Coppe, 2);
    table.stack.push_to_top(a);
    table.stack.push_to_top(b); // b is the stock top

    assert_eq!(table.make_move("n"), Ok(MoveOutcome::Continue));
    assert_eq!(table.stack.len(), 1);
    assert_eq!(table.passed_stack.len(), 1);
    assert_eq!(table.passed_stack.bottom(), Some(&b));

    assert_eq!(table.make_move("next"), Ok(MoveOutcome::Continue));
    assert_eq!(table.stack.len(), 0);
    // the first-drawn card sits at the back, ready to come up first again
    assert_eq!(table.passed_stack.top(), Some(&b));
    assert_eq!(table.passed_stack.bottom(), Some(&a));
}

#[test]
fn stock_exhaustion_cycle_swaps_back() {
    let mut table = Table::new();
    table.piles = empty_piles();
    table.stack = solitario::Deck::new();
    table.passed_stack = solitario::Deck::new();
    let c1 = Card::new_fr(Suit::Denari, 1);
    let c2 = Card::new_fr(Suit::Coppe, 2);
    let c3 = Card::new_fr(Suit::Bastoni, 3);
    table.stack.push_to_top(c1);
    table.stack.push_to_top(c2);
    table.stack.push_to_top(c3); // c3 is the top: the first card drawn

    // Draw until the stock is empty.
    assert_eq!(table.make_move("n"), Ok(MoveOutcome::Continue));
    assert_eq!(table.make_move("n"), Ok(MoveOutcome::Continue));
    assert_eq!(table.make_move("n"), Ok(MoveOutcome::Continue));
    assert_eq!(table.stack.len(), 0);
    assert_eq!(table.passed_stack.len(), 3);

    // One more draw swaps stock and waste wholesale.
    assert_eq!(table.make_move("n"), Ok(MoveOutcome::Continue));
    assert_eq!(table.stack.len(), 3);
    assert_eq!(table.passed_stack.len(), 0);

    // The next draw yields the first card ever drawn in this cycle.
    assert_eq!(table.stack.top(), Some(&c3));
    assert_eq!(table.make_move("n"), Ok(MoveOutcome::Continue));
    assert_eq!(table.passed_stack.bottom(), Some(&c3));
}

#[test]
fn cycle_drains_stock_into_waste() {
    let mut table = Table::new();
    assert_eq!(table.stack.len(), 24);
    assert_eq!(table.make_move("cycle"), Ok(MoveOutcome::Continue));
    assert_eq!(table.stack.len(), 0);
    assert_eq!(table.passed_stack.len(), 24);
    // One move was counted per card drawn, none for the cycle itself.
    assert_eq!(table.moves, 24);
}

#[test]
fn stock_to_pile_promotes_from_waste() {
    let mut table = Table::new();
    table.piles = empty_piles();
    table.stack = solitario::Deck::new();
    table.passed_stack = solitario::Deck::new();
    let base = Card::new_fr(Suit::Coppe, 6);
    table.piles[0].cards.push(base);
    table.piles[0].revealed = 1;
    let filler = Card::new_fr(Suit::Spade, 13);
    let mover = Card::new_fr(Suit::Denari, 5);
    let waiting = Card::new_fr(Suit::Bastoni, 9);
    table.stack.push_to_top(filler);
    table.stack.push_to_top(mover); // stock top: the red five
    table.passed_stack.push_to_top(waiting);

    assert_eq!(table.make_move("s;0"), Ok(MoveOutcome::Continue));

    assert_eq!(table.piles[0].cards.len(), 2);
    assert_eq!(table.piles[0].cards[1], mover);
    assert_eq!(table.piles[0].revealed, 2);
    // The waiting waste card was promoted back on top of the stock.
    assert_eq!(table.stack.len(), 2);
    assert_eq!(table.stack.top(), Some(&waiting));
    assert_eq!(table.passed_stack.len(), 0);
}

#[test]
fn stock_and_foundation_errors() {
    let mut table = Table::new();
    table.piles = empty_piles();
    table.stack = solitario::Deck::new();
    table.passed_stack = solitario::Deck::new();

    assert_eq!(table.make_move("s;0"), Err(MoveMakingError::StackIsEmpty));
    assert_eq!(table.make_move("s;a0"), Err(MoveMakingError::StackIsEmpty));
    assert_eq!(table.make_move("m0;a0"), Err(MoveMakingError::GamePileHasNoRevealed));
    assert_eq!(table.make_move("ma0;0"), Err(MoveMakingError::AcePileIsEmpty));

    // A non-Ace cannot open a foundation.
    table.piles[0].cards.push(Card::new_fr(Suit::Denari, 7));
    table.piles[0].revealed = 1;
    assert_eq!(
        table.make_move("m0;a0"),
        Err(MoveMakingError::IllegalAcePileAdd(solitario::IllegalAcePileAdd))
    );

    // A non-King cannot go to an empty column from the stock.
    table.stack.push_to_top(Card::new_fr(Suit::Coppe, 4));
    assert_eq!(
        table.make_move("s;1"),
        Err(MoveMakingError::IllegalGamePileAdd(solitario::IllegalGamePileAdd))
    );
}

#[test]
fn foundation_builds_ascending_same_suit() {
    let mut table = Table::new();
    table.piles = empty_piles();
    table.stack = solitario::Deck::new();
    table.passed_stack = solitario::Deck::new();
    table.piles[0].cards.push(Card::new_fr(Suit::Denari, 3));
    table.piles[0].cards.push(Card::new_fr(Suit::Denari, 2));
    table.piles[0].cards.push(Card::new_fr(Suit::Denari, 1));
    table.piles[0].revealed = 3;

    assert_eq!(table.make_move("m0;a0"), Ok(MoveOutcome::Continue)); // Ace
    assert_eq!(table.make_move("m0;a0"), Ok(MoveOutcome::Continue)); // Two
    assert_eq!(table.make_move("m0;a0"), Ok(MoveOutcome::Continue)); // Three
    assert_eq!(table.aces[0].cards.len(), 3);
    assert_eq!(table.aces[0].cards[2], Card::new_fr(Suit::Denari, 3));
    assert!(table.piles[0].cards.is_empty());

    // Out of order or wrong suit is rejected and the foundation unchanged.
    table.piles[1].cards.push(Card::new_fr(Suit::Denari, 5));
    table.piles[1].revealed = 1;
    assert!(table.make_move("m1;a0").is_err());
    table.piles[2].cards.push(Card::new_fr(Suit::Coppe, 4));
    table.piles[2].revealed = 1;
    assert!(table.make_move("m2;a0").is_err());
    assert_eq!(table.aces[0].cards.len(), 3);
}

#[test]
fn foundation_card_returns_to_tableau() {
    let mut table = Table::new();
    table.piles = empty_piles();
    table.stack = solitario::Deck::new();
    table.passed_stack = solitario::Deck::new();
    table.aces[1].cards.push(Card::new_fr(Suit::Denari, 1));
    table.aces[1].cards.push(Card::new_fr(Suit::Denari, 2));
    table.piles[3].cards.push(Card::new_fr(Suit::Coppe, 3));
    table.piles[3].revealed = 1;

    assert_eq!(table.make_move("ma1;3"), Ok(MoveOutcome::Continue));
    assert_eq!(table.aces[1].cards.len(), 1);
    assert_eq!(table.piles[3].cards.len(), 2);
    assert_eq!(table.piles[3].cards[1], Card::new_fr(Suit::Denari, 2));
}

#[test]
fn apply_move_takes_structured_commands() {
    let mut table = Table::new();
    assert_eq!(table.apply_move(ParsedMove::RevealNextOfStack), Ok(MoveOutcome::Continue));
    assert_eq!(table.stack.len(), 23);
    assert_eq!(table.passed_stack.len(), 1);
    assert_eq!(table.moves, 1);
    assert_eq!(
        table.apply_move(ParsedMove::MoveFromPileToPile { from: 0, to: 0, amount: 2 }),
        Err(MoveMakingError::MovingGamePile(GamePileMovingError::NotEnoughRevealedCards(2)))
    );
    assert_eq!(table.moves, 1);
}

#[test]
fn undo_and_quit_outcomes() {
    let mut table = Table::new();
    let moves_before = table.moves;
    assert_eq!(table.make_move("u"), Ok(MoveOutcome::UndoRequested));
    assert_eq!(table.moves, moves_before + 1);
    assert_eq!(table.make_move("quit"), Ok(MoveOutcome::Quit));
    assert_eq!(table.moves, moves_before + 1); // quitting is not a move
    assert_eq!(table.make_move("q"), Ok(MoveOutcome::Quit));
}

#[test]
fn parse_error_is_reported_by_make_move() {
    let mut table = Table::new();
    match table.make_move("not a move") {
        Err(MoveMakingError::Parsing(e)) => {
            assert_eq!(e.input, "not a move");
        },
        other => panic!("expected a parse error, got {:?}", other),
    }
}

#[test]
fn win_detection_follows_visibility() {
    let mut table = Table::new();
    table.piles = empty_piles();
    // All-empty tableau columns count as fully revealed.
    assert!(table.has_won());

    table.piles[2].cards.push(Card::new_fr(Suit::Denari, 9));
    table.piles[2].revealed = 1;
    assert!(table.has_won());

    // One hidden card anywhere denies the win.
    table.piles[2].cards.push(Card::new_fr(Suit::Coppe, 8));
    assert!(!table.has_won());
    table.piles[2].revealed = 2;
    assert!(table.has_won());

    // A fresh deal always starts with hidden cards.
    let fresh = Table::new();
    assert!(!fresh.has_won());
}

#[test]
fn legality_check_follows_the_rules() {
    let king = Card::new_fr(Suit::Spade, 13);
    let queen = Card::new_fr(Suit::Coppe, 12);
    let red_five = Card::new_fr(Suit::Denari, 5);
    let black_six = Card::new_fr(Suit::Bastoni, 6);
    let red_six = Card::new_fr(Suit::Spade, 6);

    // An empty column takes exactly a King.
    assert!(solitario::legality_check(&king, None));
    assert!(!solitario::legality_check(&queen, None));
    assert!(!solitario::legality_check(&red_five, None));

    // A base card takes the next-lower rank of the other colour only.
    assert!(solitario::legality_check(&red_five, Some(&black_six)));
    assert!(!solitario::legality_check(&red_five, Some(&red_six)));
    assert!(!solitario::legality_check(&red_five, Some(&king))); // wrong rank
    assert!(!solitario::legality_check(&queen, Some(&Card::new_fr(Suit::Bastoni, 13)))); // same colour
    assert!(solitario::legality_check(&queen, Some(&king)));
    assert!(solitario::legality_check(&queen, Some(&Card::new_fr(Suit::Denari, 13))));
}

#[test]
fn card_values_follow_both_conventions() {
    assert_eq!(Card::new_it(Suit::Denari, 8).value(), 8);
    assert_eq!(Card::new_it(Suit::Denari, 8).number, CardNum::Fante);
    assert_eq!(Card::new_fr(Suit::Coppe, 11).value_fr(), 11);
    assert_eq!(Card::new_fr(Suit::Coppe, 11).number, CardNum::Fante);
    assert_eq!(Card::new_fr(Suit::Coppe, 13).value_fr(), 13);
    assert_eq!(Card::new_fr(Suit::Coppe, 10).number, CardNum::Numeric(10));
    assert_eq!(Card::denari(10).number, CardNum::Re);
    assert_eq!(Card::denari(10).value(), 10);
    assert_eq!(Card::new_fr(Suit::Spade, 7).value_fr(), 7);
}

#[test]
fn pile_helpers_behave() {
    let mut pile = GamePile::new();
    assert!(pile.get_tail_of_revealed().is_none());
    assert!(pile.pop_tail_of_revealed().is_none());

    let c1 = Card::new_fr(Suit::Denari, 13);
    let c2 = Card::new_fr(Suit::Coppe, 12);
    pile.add_card_unchecked(c1);
    assert_eq!(pile.revealed, 1);
    assert!(pile.add_card(c2).is_ok());
    assert_eq!(pile.revealed, 2);
    assert_eq!(pile.get_tail_of_revealed(), Some(&c2));
    assert_eq!(pile._get_head_of_revealed(), Some(&c1));
    assert!(pile.add_card(Card::new_fr(Suit::Spade, 3)).is_err());

    assert_eq!(pile.pop_tail_of_revealed(), Some(c2));
    assert_eq!(pile.revealed, 1);
    assert_eq!(pile.pop_tail_of_revealed(), Some(c1));
    assert_eq!(pile.revealed, 0);

    let mut ace = AcePile::new();
    assert!(ace.top().is_none());
    assert!(ace.add_card(Card::new_fr(Suit::Denari, 2)).is_err());
    assert!(ace.add_card(Card::new_fr(Suit::Denari, 1)).is_ok());
    assert!(ace.add_card(Card::new_fr(Suit::Coppe, 2)).is_err());
    assert!(ace.add_card(Card::new_fr(Suit::Denari, 2)).is_ok());
    assert_eq!(ace.top(), Some(&Card::new_fr(Suit::Denari, 2)));
    assert_eq!(ace.pop(), Some(Card::new_fr(Suit::Denari, 2)));
    assert_eq!(ace.top(), Some(&Card::new_fr(Suit::Denari, 1)));
}
