use std::collections::VecDeque;
use vstd::prelude::*;
use vstd::seq_lib::group_to_multiset_ensures;

verus! {

/// One of the four suits of an Italian deck. `Denari` and `Spade` form the
/// red colour group, `Coppe` and `Bastoni` the black one.
#[derive(Clone, Copy, Debug, PartialEq, Eq, Structural)]
pub enum Suit {
    Denari,
    Coppe,
    Bastoni,
    Spade,
}

/// The face of a card: a numeric rank or one of the three court cards.
#[derive(Clone, Copy, Debug, PartialEq, Eq, Structural)]
pub enum CardNum {
    Numeric(u8),
    Fante,
    Cavallo,
    Re,
}

/// A playing card: a suit together with a face.
#[derive(Clone, Copy, Debug, PartialEq, Eq, Structural)]
pub struct Card {
    pub suit: Suit,
    pub number: CardNum,
}

/// Rank value under the short (Italian, 10-rank) convention.
pub open spec fn card_value_it(c: Card) -> int {
    match c.number {
        CardNum::Numeric(n) => n as int,
        CardNum::Fante => 8,
        CardNum::Cavallo => 9,
        CardNum::Re => 10,
    }
}

/// Rank value under the long (French, 13-rank) convention; King is 13.
pub open spec fn card_value_fr(c: Card) -> int {
    match c.number {
        CardNum::Numeric(n) => n as int,
        CardNum::Fante => 11,
        CardNum::Cavallo => 12,
        CardNum::Re => 13,
    }
}

/// The suits in the order decks are laid out.
pub open spec fn suit_order() -> Seq<Suit> {
    seq![Suit::Denari, Suit::Coppe, Suit::Bastoni, Suit::Spade]
}

/// The ten faces of the short deck, lowest first.
pub open spec fn it_numbers() -> Seq<CardNum> {
    seq![
        CardNum::Numeric(1),
        CardNum::Numeric(2),
        CardNum::Numeric(3),
        CardNum::Numeric(4),
        CardNum::Numeric(5),
        CardNum::Numeric(6),
        CardNum::Numeric(7),
        CardNum::Fante,
        CardNum::Cavallo,
        CardNum::Re,
    ]
}

/// The thirteen faces of the long deck, lowest first.
pub open spec fn fr_numbers() -> Seq<CardNum> {
    seq![
        CardNum::Numeric(1),
        CardNum::Numeric(2),
        CardNum::Numeric(3),
        CardNum::Numeric(4),
        CardNum::Numeric(5),
        CardNum::Numeric(6),
        CardNum::Numeric(7),
        CardNum::Numeric(8),
        CardNum::Numeric(9),
        CardNum::Numeric(10),
        CardNum::Fante,
        CardNum::Cavallo,
        CardNum::Re,
    ]
}

/// The unshuffled deck over the given faces: one card per (face, suit) pair,
/// faces outermost, suits innermost.
pub open spec fn deck_of(numbers: Seq<CardNum>) -> Seq<Card> {
    Seq::new(
        numbers.len() * 4,
        |i: int| Card { number: numbers[i / 4], suit: suit_order()[i % 4] },
    )
}

/// The full 40-card short deck, in construction order.
pub open spec fn basic_deck() -> Seq<Card> {
    deck_of(it_numbers())
}

/// The full 52-card long deck, in construction order.
pub open spec fn french_deck() -> Seq<Card> {
    deck_of(fr_numbers())
}

/// An ordered pile of cards. The front of the inner queue is the bottom of
/// the deck, the back is the top.
#[derive(Clone, Debug)]
pub struct Deck(pub VecDeque<Card>);

impl View for Deck {
    type V = Seq<Card>;

    open spec fn view(&self) -> Seq<Card> {
        self.0@
    }
}

impl Default for Deck {
    /// An empty deck.
    fn default() -> (d: Self)
        ensures
            d@.len() == 0,
    {
        Deck::new()
    }
}

impl Deck {
    /// An empty deck.
    pub fn new() -> (d: Self)
        ensures
            d@.len() == 0,
    {
        Deck(VecDeque::new())
    }

    /// The top card, if any.
    pub fn top(&self) -> (r: Option<&Card>)
        ensures
            match r {
                Some(c) => self@.len() > 0 && *c == self@.last(),
                None => self@.len() == 0,
            },
    {
        if self.0.len() == 0 {
            None
        } else {
            Some(&self.0[self.0.len() - 1])
        }
    }

    /// The bottom card, if any.
    pub fn bottom(&self) -> (r: Option<&Card>)
        ensures
            match r {
                Some(c) => self@.len() > 0 && *c == self@.first(),
                None => self@.len() == 0,
            },
    {
        if self.0.len() == 0 {
            None
        } else {
            Some(&self.0[0])
        }
    }

    /// Remove and return the top card, if any.
    pub fn take_from_top(&mut self) -> (r: Option<Card>)
        ensures
            match r {
                Some(c) => {
                    &&& old(self)@.len() > 0
                    &&& c == old(self)@.last()
                    &&& final(self)@ == old(self)@.drop_last()
                },
                None => {
                    &&& old(self)@.len() == 0
                    &&& final(self)@ == old(self)@
                },
            },
    {
        self.0.pop_back()
    }

    /// Put a card on top.
    pub fn push_to_top(&mut self, c: Card)
        ensures
            final(self)@ == old(self)@.push(c),
    {
        self.0.push_back(c);
    }

    /// Remove and return the bottom card, if any.
    pub fn take_from_bottom(&mut self) -> (r: Option<Card>)
        ensures
            match r {
                Some(c) => {
                    &&& old(self)@.len() > 0
                    &&& c == old(self)@.first()
                    &&& final(self)@ == old(self)@.drop_first()
                },
                None => {
                    &&& old(self)@.len() == 0
                    &&& final(self)@ == old(self)@
                },
            },
    {
        self.0.pop_front()
    }

    /// Slide a card under the deck.
    pub fn push_to_bottom(&mut self, c: Card)
        ensures
            final(self)@ == seq![c] + old(self)@,
    {
        self.0.push_front(c);
    }

    /// Number of cards held.
    pub fn len(&self) -> (n: usize)
        ensures
            n == self@.len(),
    {
        self.0.len()
    }

    /// Whether the deck holds no card.
    pub fn is_empty(&self) -> (r: bool)
        ensures
            r == (self@.len() == 0),
    {
        self.0.len() == 0
    }

    /// Empty this deck under `dest`, one card at a time from this deck's
    /// bottom; the moved block ends up reversed on top of `dest`'s bottom.
    #[verifier::rlimit(30)]
    pub fn move_all_cards_to(&mut self, dest: &mut Deck)
        ensures
            final(self)@.len() == 0,
            final(dest)@ == old(self)@.reverse() + old(dest)@,
    {
        let ghost orig_src = self@;
        let ghost orig_dst = dest@;
        let ghost mut moved: int = 0;
        while self.0.len() > 0
            invariant
                0 <= moved <= orig_src.len(),
                self@ == orig_src.subrange(moved, orig_src.len() as int),
                dest@ == orig_src.take(moved).reverse() + orig_dst,
            decreases self@.len(),
        {
            let c = self.0.pop_front().unwrap();
            dest.0.push_front(c);
            proof {
                moved = moved + 1;
                assert(orig_src.take(moved).reverse() =~= seq![orig_src[moved - 1]]
                    + orig_src.take(moved - 1).reverse());
                assert(self@ =~= orig_src.subrange(moved, orig_src.len() as int));
            }
        }
        proof {
            assert(orig_src.take(moved) =~= orig_src);
        }
    }
}

/// Relies on rand::Rng::gen_range over rand::thread_rng: a uniformly chosen
/// index in `0 ..= bound`. The value depends on the generator's state, so
/// nothing is promised beyond the bound; the range is never empty, so the
/// call cannot panic.
#[verifier::external_body]
fn random_index_up_to(bound: usize) -> (r: usize)
    ensures
        r <= bound,
{
    rand::Rng::gen_range(&mut rand::thread_rng(), 0..=bound)
}

impl Card {
    /// Build the card of rank `n` (1 to 10) in the short convention,
    /// where Fante is 8, Cavallo 9 and Re 10.
    pub fn new_it(suit: Suit, n: usize) -> (c: Card)
        requires
            1 <= n <= 10,
        ensures
            c.suit == suit,
            card_value_it(c) == n,
            n <= 7 ==> c.number == CardNum::Numeric(n as u8),
            n == 8 ==> c.number == CardNum::Fante,
            n == 9 ==> c.number == CardNum::Cavallo,
            n == 10 ==> c.number == CardNum::Re,
    {
        if n <= 7 {
            Card { suit, number: CardNum::Numeric(n as u8) }
        } else if n == 8 {
            Card { suit, number: CardNum::Fante }
        } else if n == 9 {
            Card { suit, number: CardNum::Cavallo }
        } else {
            Card { suit, number: CardNum::Re }
        }
    }

    /// Build the card of rank `n` (1 to 13) in the long convention,
    /// where Fante is 11, Cavallo 12 and Re 13.
    pub fn new_fr(suit: Suit, n: usize) -> (c: Card)
        requires
            1 <= n <= 13,
        ensures
            c.suit == suit,
            card_value_fr(c) == n,
            n <= 10 ==> c.number == CardNum::Numeric(n as u8),
            n == 11 ==> c.number == CardNum::Fante,
            n == 12 ==> c.number == CardNum::Cavallo,
            n == 13 ==> c.number == CardNum::Re,
    {
        if n <= 10 {
            Card { suit, number: CardNum::Numeric(n as u8) }
        } else if n == 11 {
            Card { suit, number: CardNum::Fante }
        } else if n == 12 {
            Card { suit, number: CardNum::Cavallo }
        } else {
            Card { suit, number: CardNum::Re }
        }
    }

    /// Build the card of rank `n` (1 to 10, short convention) in the Denari suit.
    pub fn denari(n: usize) -> (c: Card)
        requires
            1 <= n <= 10,
        ensures
            c.suit == Suit::Denari,
            card_value_it(c) == n,
    {
        Card::new_it(Suit::Denari, n)
    }

    /// Rank value in the short convention.
    pub fn value(&self) -> (v: usize)
        ensures
            v == card_value_it(*self),
    {
        match self.number {
            CardNum::Numeric(n) => n as usize,
            CardNum::Fante => 8,
            CardNum::Cavallo => 9,
            CardNum::Re => 10,
        }
    }

    /// Rank value in the long convention.
    pub fn value_fr(&self) -> (v: usize)
        ensures
            v == card_value_fr(*self),
    {
        match self.number {
            CardNum::Numeric(n) => n as usize,
            CardNum::Fante => 11,
            CardNum::Cavallo => 12,
            CardNum::Re => 13,
        }
    }

    /// A freshly shuffled 40-card short deck.
    pub fn shuffled_basic_deck() -> (d: Deck)
        ensures
            d@.to_multiset() == basic_deck().to_multiset(),
            d@.len() == 40,
    {
        let mut numbers: Vec<CardNum> = Vec::new();
        numbers.push(CardNum::Numeric(1));
        numbers.push(CardNum::Numeric(2));
        numbers.push(CardNum::Numeric(3));
        numbers.push(CardNum::Numeric(4));
        numbers.push(CardNum::Numeric(5));
        numbers.push(CardNum::Numeric(6));
        numbers.push(CardNum::Numeric(7));
        numbers.push(CardNum::Fante);
        numbers.push(CardNum::Cavallo);
        numbers.push(CardNum::Re);
        proof {
            assert(numbers@ =~= it_numbers());
        }
        Self::shuffled_deck(&numbers)
    }

    /// A freshly shuffled 52-card long deck.
    pub fn shuffled_french_deck() -> (d: Deck)
        ensures
            d@.to_multiset() == french_deck().to_multiset(),
            d@.len() == 52,
    {
        let mut numbers: Vec<CardNum> = Vec::new();
        numbers.push(CardNum::Numeric(1));
        numbers.push(CardNum::Numeric(2));
        numbers.push(CardNum::Numeric(3));
        numbers.push(CardNum::Numeric(4));
        numbers.push(CardNum::Numeric(5));
        numbers.push(CardNum::Numeric(6));
        numbers.push(CardNum::Numeric(7));
        numbers.push(CardNum::Numeric(8));
        numbers.push(CardNum::Numeric(9));
        numbers.push(CardNum::Numeric(10));
        numbers.push(CardNum::Fante);
        numbers.push(CardNum::Cavallo);
        numbers.push(CardNum::Re);
        proof {
            assert(numbers@ =~= fr_numbers());
        }
        Self::shuffled_deck(&numbers)
    }

    /// Deal one card per (face, suit) pair and shuffle the result with a
    /// Fisher-Yates pass, last index down to 1.
    fn shuffled_deck(numbers: &Vec<CardNum>) -> (d: Deck)
        requires
            numbers@.len() <= 64,
        ensures
            d@.to_multiset() == deck_of(numbers@).to_multiset(),
            d@.len() == 4 * numbers@.len(),
    {
        let total: usize = numbers.len() * 4;
        let mut cards: Vec<Card> = Vec::new();
        let mut i: usize = 0;
        while i < total
            invariant
                i <= total,
                total == numbers@.len() * 4,
                numbers@.len() <= 64,
                cards@ == deck_of(numbers@).take(i as int),
            decreases total - i,
        {
            cards.push(Card { number: numbers[i / 4], suit: suit_at(i % 4) });
            i = i + 1;
            proof {
                assert(cards@ =~= deck_of(numbers@).take(i as int));
            }
        }
        proof {
            assert(deck_of(numbers@).take(total as int) =~= deck_of(numbers@));
        }

        // Fisher-Yates: swap each position, from the last down to 1, with a
        // uniformly chosen earlier-or-equal position.
        if cards.len() > 1 {
            let mut k: usize = cards.len() - 1;
            while k >= 1
                invariant
                    k < cards@.len(),
                    cards@.len() == deck_of(numbers@).len(),
                    cards@.to_multiset() == deck_of(numbers@).to_multiset(),
                decreases k,
            {
                let j = random_index_up_to(k);
                let ghost before = cards@;
                let ck = cards[k];
                let cj = cards[j];
                cards.set(k, cj);
                cards.set(j, ck);
                proof {
                    broadcast use group_to_multiset_ensures;

                    assert(cards@ =~= before.update(k as int, before[j as int]).update(
                        j as int,
                        before[k as int],
                    ));
                    assert(cards@.to_multiset() =~= before.to_multiset());
                }
                k = k - 1;
            }
        }

        let mut dq: VecDeque<Card> = VecDeque::new();
        let mut t: usize = 0;
        while t < cards.len()
            invariant
                t <= cards@.len(),
                dq@ == cards@.take(t as int),
            decreases cards@.len() - t,
        {
            dq.push_back(cards[t]);
            t = t + 1;
            proof {
                assert(dq@ =~= cards@.take(t as int));
            }
        }
        proof {
            assert(cards@.take(t as int) =~= cards@);
        }
        Deck(dq)
    }
}

/// The suit at position `i` of the fixed suit order.
fn suit_at(i: usize) -> (s: Suit)
    requires
        i < 4,
    ensures
        s == suit_order()[i as int],
{
    if i == 0 {
        Suit::Denari
    } else if i == 1 {
        Suit::Coppe
    } else if i == 2 {
        Suit::Bastoni
    } else {
        Suit::Spade
    }
}

} // verus!
