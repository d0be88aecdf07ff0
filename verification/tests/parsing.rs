use solitario::ParsedMove as PM;
use solitario::{parse_move, Card, CardNum, CustomErrorKind, ParsedMove, Suit};

#[test]
fn parsing_battery() {
    let ok_pairs = [
        ("n", PM::RevealNextOfStack),
        ("next", PM::RevealNextOfStack),
        ("u", PM::Undo),
        ("undo", PM::Undo),
        ("s;0", PM::MoveFromStackToPile(0)),
        ("s;1", PM::MoveFromStackToPile(1)),
        ("s;2", PM::MoveFromStackToPile(2)),
        ("s;3", PM::MoveFromStackToPile(3)),
        ("s;6", PM::MoveFromStackToPile(6)),
        ("s;a0", PM::MoveFromStackToAce(0)),
        ("s;a1", PM::MoveFromStackToAce(1)),
        ("s;a2", PM::MoveFromStackToAce(2)),
        ("s;a3", PM::MoveFromStackToAce(3)),
        ("m0;1;3", PM::MoveFromPileToPile { from: 0, to: 1, amount: 3 }),
        ("m1;2;3", PM::MoveFromPileToPile { from: 1, to: 2, amount: 3 }),
        ("ma1;2", PM::MoveFromAceToPile { ace: 1, pile: 2 }),
        ("m1;a2", PM::MoveFromPileToAce { pile: 1, ace: 2 }),
        ("m;0;1;3", PM::MoveFromPileToPile { from: 0, to: 1, amount: 3 }),
        ("m;1;2;3", PM::MoveFromPileToPile { from: 1, to: 2, amount: 3 }),
        ("m;a1;2", PM::MoveFromAceToPile { ace: 1, pile: 2 }),
        ("m;1;a2", PM::MoveFromPileToAce { pile: 1, ace: 2 }),
    ];

    let errs = [
        "m3;3;2",
        "m;;3;4;2",
        "nexttt",
        "sekjfhjkfhkjsflkjsdhfklsdjkf",
        "un",
        "und",
        "undoo",
        "nextt",
        "nxtt",
        "dlkjhflkjshglks",
        "m0;0;2",
        "m1;1;2",
        "m2;2;2",
        "m4;4;2",
        "m5;5;2",
        "m6;6;2", // Repeated piles
        "m8;1;2",
        "m-1;1;2", // Out of range
        "s;7",
        "s;a4", // Number too big
        "ma7;2",
        "ma2;7",
        "m7;a2",
        "m2;a7",
        "m7;2;3",
        "m2;7;3",
        "s;a-1",
        "m2;4;-3", // Negatives
    ];

    for (inp, out) in ok_pairs {
        assert_eq!(parse_move(inp), Ok(out));
    }

    for inp in errs {
        assert!(parse_move(inp).is_err());
    }
}

#[test]
fn parsing_trims_surrounding_whitespace() {
    assert_eq!(parse_move("  next \t"), Ok(ParsedMove::RevealNextOfStack));
    assert_eq!(parse_move("\n s;3 \r\n"), Ok(ParsedMove::MoveFromStackToPile(3)));
    assert_eq!(
        parse_move(" m2;4;2 "),
        Ok(ParsedMove::MoveFromPileToPile { from: 2, to: 4, amount: 2 })
    );
    assert!(parse_move("ne xt").is_err());
    assert!(parse_move("").is_err());
    assert!(parse_move("   ").is_err());
}

#[test]
fn parse_error_kinds_are_distinct() {
    assert_eq!(parse_move("s;7").unwrap_err().kind, CustomErrorKind::OutOfRangePiles(7));
    assert_eq!(parse_move("m9;1;2").unwrap_err().kind, CustomErrorKind::OutOfRangePiles(9));
    assert_eq!(parse_move("m1;8;2").unwrap_err().kind, CustomErrorKind::OutOfRangePiles(8));
    assert_eq!(parse_move("s;a4").unwrap_err().kind, CustomErrorKind::OutOfRangeAces(4));
    assert_eq!(parse_move("m1;a5").unwrap_err().kind, CustomErrorKind::OutOfRangeAces(5));
    assert_eq!(parse_move("ma6;2").unwrap_err().kind, CustomErrorKind::OutOfRangeAces(6));
    assert_eq!(parse_move("m3;3;2").unwrap_err().kind, CustomErrorKind::RepeatedSelection);
    assert_eq!(parse_move("m0;1;255").unwrap_err().kind, CustomErrorKind::AmountTooLarge(255));
    assert_eq!(parse_move("m0;1;4000").unwrap_err().kind, CustomErrorKind::AmountTooLarge(4000));
    assert_eq!(parse_move("undoo").unwrap_err().kind, CustomErrorKind::InputHadLeftovers);
    assert_eq!(parse_move("zzz").unwrap_err().kind, CustomErrorKind::Syntax);
    assert_eq!(parse_move("").unwrap_err().kind, CustomErrorKind::Syntax);
}

#[test]
fn parse_amount_bounds() {
    // 254 is the largest accepted amount; the parser leaves pile emptiness
    // and legality to the engine.
    assert_eq!(
        parse_move("m0;1;254"),
        Ok(ParsedMove::MoveFromPileToPile { from: 0, to: 1, amount: 254 })
    );
    assert!(parse_move("m0;1;255").is_err());
    // A number too large even for 32 bits is a plain syntax failure.
    assert!(parse_move("m0;1;99999999999").is_err());
    assert_eq!(
        parse_move("m0;1;99999999999").unwrap_err().kind,
        CustomErrorKind::Syntax
    );
}

#[test]
fn parse_error_keeps_the_input() {
    let err = parse_move(" undoo ").unwrap_err();
    assert_eq!(err.input, " undoo ");
    assert_eq!(err.kind, CustomErrorKind::InputHadLeftovers);
}

#[test]
fn shuffled_decks_hold_every_card_once() {
    let short = Card::shuffled_basic_deck();
    assert_eq!(short.len(), 40);
    let long = Card::shuffled_french_deck();
    assert_eq!(long.len(), 52);

    let suits = [Suit::Denari, Suit::Coppe, Suit::Bastoni, Suit::Spade];
    for suit in suits {
        for n in 1..=13usize {
            let wanted = Card::new_fr(suit, n);
            let count = long.0.iter().filter(|c| **c == wanted).count();
            assert_eq!(count, 1, "{:?} should appear exactly once", wanted);
        }
        for n in 1..=10usize {
            let wanted = Card::new_it(suit, n);
            let count = short.0.iter().filter(|c| **c == wanted).count();
            assert_eq!(count, 1, "{:?} should appear exactly once", wanted);
        }
    }
}

#[test]
fn deck_end_operations() {
    let mut deck = solitario::Deck::new();
    assert!(deck.is_empty());
    assert!(deck.top().is_none());
    assert!(deck.bottom().is_none());
    assert!(deck.take_from_top().is_none());
    assert!(deck.take_from_bottom().is_none());

    let a = Card { suit: Suit::Denari, number: CardNum::Numeric(1) };
    let b = Card { suit: Suit::Coppe, number: CardNum::Fante };
    let c = Card { suit: Suit::Spade, number: CardNum::Re };
    deck.push_to_top(a);
    deck.push_to_top(b);
    deck.push_to_bottom(c);
    assert_eq!(deck.len(), 3);
    assert_eq!(deck.top(), Some(&b));
    assert_eq!(deck.bottom(), Some(&c));

    assert_eq!(deck.take_from_top(), Some(b));
    assert_eq!(deck.take_from_bottom(), Some(c));
    assert_eq!(deck.take_from_top(), Some(a));
    assert!(deck.is_empty());
}

#[test]
fn deck_move_all_cards_reverses_onto_destination() {
    let mut src = solitario::Deck::new();
    let mut dst = solitario::Deck::new();
    let a = Card::new_fr(Suit::Denari, 1);
    let b = Card::new_fr(Suit::Coppe, 2);
    src.push_to_top(a);
    src.push_to_top(b);
    let d = Card::new_fr(Suit::Spade, 4);
    dst.push_to_top(d);

    src.move_all_cards_to(&mut dst);
    assert!(src.is_empty());
    assert_eq!(dst.len(), 3);
    // The source came over bottom-first, each card slid under the next.
    assert_eq!(dst.bottom(), Some(&b));
    assert_eq!(dst.top(), Some(&d));
}
