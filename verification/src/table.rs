use vstd::multiset::Multiset;
use vstd::prelude::*;
use vstd::seq_lib::group_to_multiset_ensures;
use vstd::seq_lib::lemma_multiset_commutative;

use crate::cards::{card_value_fr, french_deck, Card, CardNum, Deck, Suit};
use crate::parse::{parse_move, pm_wf, spec_parse_move, ParsedMove, ParsingError};

verus! {

/// One of the seven tableau columns: its cards, bottom first, and how many
/// of them, counted from the tail, lie face up.
#[derive(Clone, Debug)]
pub struct GamePile {
    pub cards: Vec<Card>,
    pub revealed: u8,
}

/// One of the four foundation piles, built up from the Ace of one suit.
#[derive(Clone, Debug)]
pub struct AcePile {
    pub cards: Vec<Card>,
}

/// The whole playing field.
#[derive(Clone, Debug)]
pub struct Table {
    pub piles: Vec<GamePile>,
    pub stack: Deck,
    pub passed_stack: Deck,
    pub aces: Vec<AcePile>,
    pub moves: usize,
}

/// Mathematical model of a tableau column.
#[verifier::ext_equal]
pub ghost struct PileView {
    pub cards: Seq<Card>,
    pub revealed: nat,
}

/// Mathematical model of the playing field.
#[verifier::ext_equal]
pub ghost struct TableView {
    pub piles: Seq<PileView>,
    pub stack: Seq<Card>,
    pub passed: Seq<Card>,
    pub aces: Seq<Seq<Card>>,
    pub moves: nat,
}

impl View for GamePile {
    type V = PileView;

    open spec fn view(&self) -> PileView {
        PileView { cards: self.cards@, revealed: self.revealed as nat }
    }
}

impl View for AcePile {
    type V = Seq<Card>;

    open spec fn view(&self) -> Seq<Card> {
        self.cards@
    }
}

impl View for Table {
    type V = TableView;

    open spec fn view(&self) -> TableView {
        TableView {
            piles: Seq::new(self.piles@.len(), |i: int| self.piles@[i]@),
            stack: self.stack@,
            passed: self.passed_stack@,
            aces: Seq::new(self.aces@.len(), |i: int| self.aces@[i]@),
            moves: self.moves as nat,
        }
    }
}

/// The last element of a pile, seen as an optional base card.
pub open spec fn last_opt(s: Seq<Card>) -> Option<Card> {
    if s.len() == 0 {
        None
    } else {
        Some(s.last())
    }
}

/// A column is well formed when no more cards are revealed than it holds,
/// and a non-empty column always shows at least its tail card.
pub open spec fn pile_wf(p: PileView) -> bool {
    &&& p.revealed <= p.cards.len()
    &&& p.cards.len() > 0 ==> p.revealed >= 1
}

/// All cards held by the tableau columns.
pub open spec fn piles_multiset(ps: Seq<PileView>) -> Multiset<Card>
    decreases ps.len(),
{
    if ps.len() == 0 {
        Multiset::empty()
    } else {
        piles_multiset(ps.drop_last()).add(ps.last().cards.to_multiset())
    }
}

/// All cards held by the foundation piles.
pub open spec fn aces_multiset(fs: Seq<Seq<Card>>) -> Multiset<Card>
    decreases fs.len(),
{
    if fs.len() == 0 {
        Multiset::empty()
    } else {
        aces_multiset(fs.drop_last()).add(fs.last().to_multiset())
    }
}

impl TableView {
    /// Every card on the table, wherever it lies.
    pub open spec fn cards_multiset(self) -> Multiset<Card> {
        piles_multiset(self.piles).add(aces_multiset(self.aces)).add(
            self.stack.to_multiset(),
        ).add(self.passed.to_multiset())
    }

    /// Structural soundness of a table: the fixed pile counts, well-formed
    /// columns, and no more cards than a full long deck anywhere.
    pub open spec fn wf(self) -> bool {
        &&& self.piles.len() == 7
        &&& self.aces.len() == 4
        &&& forall|i: int| 0 <= i < 7 ==> pile_wf(#[trigger] self.piles[i])
        &&& self.cards_multiset().len() <= 52
    }

    /// The game is won when every tableau column is fully revealed.
    pub open spec fn won(self) -> bool {
        forall|i: int|
            0 <= i < self.piles.len() ==> (#[trigger] self.piles[i]).cards.len()
                == self.piles[i].revealed
    }
}

/// Whether a suit belongs to the red colour group.
pub open spec fn is_red(s: Suit) -> bool {
    s == Suit::Denari || s == Suit::Spade
}

/// Tableau placement rule: onto an empty column only a King may go; onto a
/// base card only the card one rank below it, of the other colour group.
pub open spec fn spec_legal(added: Card, base: Option<Card>) -> bool {
    match base {
        Some(b) => card_value_fr(added) + 1 == card_value_fr(b) && is_red(added.suit) != is_red(
            b.suit,
        ),
        None => added.number == CardNum::Re,
    }
}

/// Foundation placement rule: an Ace starts an empty foundation; afterwards
/// only the next rank of the same suit may follow.
pub open spec fn spec_ace_legal(top: Option<Card>, c: Card) -> bool {
    match top {
        None => c.number == CardNum::Numeric(1),
        Some(t) => t.suit == c.suit && card_value_fr(t) + 1 == card_value_fr(c),
    }
}

/// Whether a suit belongs to the red colour group.
pub fn suit_is_red(s: Suit) -> (r: bool)
    ensures
        r == is_red(s),
{
    match s {
        Suit::Denari => true,
        Suit::Spade => true,
        _ => false,
    }
}

/// Decide the tableau placement rule for `added` against an optional base.
pub fn legality_check(added: &Card, base_opt: Option<&Card>) -> (r: bool)
    ensures
        base_opt matches Some(b) ==> r == spec_legal(*added, Some(*b)),
        base_opt is None ==> r == spec_legal(*added, None),
{
    match base_opt {
        Some(base) => {
            let av = added.value_fr();
            let bv = base.value_fr();
            av + 1 == bv && suit_is_red(added.suit) != suit_is_red(base.suit)
        },
        None => added.number == CardNum::Re,
    }
}

/// A card was offered to a foundation pile against its rule.
#[derive(Clone, Copy, Debug, PartialEq, Eq, Structural)]
pub struct IllegalAcePileAdd;

/// A card was offered to a tableau column against its rule.
#[derive(Clone, Copy, Debug, PartialEq, Eq, Structural)]
pub struct IllegalGamePileAdd;

/// Why a tableau-to-tableau block move was refused.
#[derive(Clone, Copy, Debug, PartialEq, Eq, Structural)]
pub enum GamePileMovingError {
    PileHasNoRevealed,
    IllegalMove,
    PileOutOfRange,
    AmountWasZero,
    NotEnoughRevealedCards(u8),
}

/// Why a textual move could not be carried out.
#[derive(Clone, Debug, PartialEq, Eq)]
pub enum MoveMakingError {
    Parsing(ParsingError),
    IllegalAcePileAdd(IllegalAcePileAdd),
    IllegalGamePileAdd(IllegalGamePileAdd),
    GamePileHasNoRevealed,
    AcePileIsEmpty,
    StackIsEmpty,
    MovingGamePile(GamePileMovingError),
}

/// What a successful call of the move entry point asks of the host loop.
#[derive(Clone, Copy, Debug, PartialEq, Eq, Structural)]
pub enum MoveOutcome {
    /// The table changed (or a draw happened); keep playing.
    Continue,
    /// An undo was asked for, which the engine does not support.
    UndoRequested,
    /// The player asked to leave the game.
    Quit,
}

impl Default for GamePile {
    /// An empty column.
    fn default() -> (p: Self)
        ensures
            p@.cards.len() == 0,
            p@.revealed == 0,
    {
        GamePile::new()
    }
}

impl Default for AcePile {
    /// An empty foundation.
    fn default() -> (p: Self)
        ensures
            p@.len() == 0,
    {
        AcePile::new()
    }
}

impl GamePile {
    /// An empty column.
    pub fn new() -> (p: GamePile)
        ensures
            p@.cards.len() == 0,
            p@.revealed == 0,
    {
        GamePile { cards: Vec::new(), revealed: 0 }
    }

    /// The first face-up card, the one nearest the top of the table.
    pub fn _get_head_of_revealed(&self) -> (r: Option<&Card>)
        requires
            pile_wf(self@),
        ensures
            match r {
                Some(c) => self@.cards.len() > 0 && *c == self@.cards[self@.cards.len()
                    - self@.revealed],
                None => self@.cards.len() == 0,
            },
    {
        if self.cards.len() == 0 {
            None
        } else {
            Some(&self.cards[self.cards.len() - self.revealed as usize])
        }
    }

    /// The tail card: the last, lowest-value face-up card of the column.
    pub fn get_tail_of_revealed(&self) -> (r: Option<&Card>)
        ensures
            match r {
                Some(c) => self@.cards.len() > 0 && *c == self@.cards.last(),
                None => self@.cards.len() == 0,
            },
    {
        if self.cards.len() == 0 {
            None
        } else {
            Some(&self.cards[self.cards.len() - 1])
        }
    }

    /// Remove the tail card. The revealed count goes down with it, yet a
    /// non-empty column keeps at least one card face up.
    pub fn pop_tail_of_revealed(&mut self) -> (r: Option<Card>)
        requires
            pile_wf(old(self)@),
        ensures
            pile_wf(final(self)@),
            match r {
                Some(c) => {
                    &&& old(self)@.cards.len() > 0
                    &&& c == old(self)@.cards.last()
                    &&& final(self)@ == pop_tail_view(old(self)@)
                },
                None => {
                    &&& old(self)@.cards.len() == 0
                    &&& final(self)@ == old(self)@
                },
            },
    {
        if self.cards.len() == 0 {
            return None;
        }
        let c = self.cards.pop().unwrap();
        if self.cards.len() == 0 {
            self.revealed = 0;
        } else if self.revealed > 1 {
            self.revealed = self.revealed - 1;
        } else {
            self.revealed = 1;
        }
        Some(c)
    }

    /// Put one card on the column if the tableau rule allows it; otherwise
    /// leave the column untouched and report the refusal.
    pub fn add_card(&mut self, card: Card) -> (r: Result<(), IllegalGamePileAdd>)
        requires
            old(self)@.revealed < 255,
        ensures
            spec_legal(card, last_opt(old(self)@.cards)) ==> r is Ok && final(self)@
                == push_view(old(self)@, card),
            !spec_legal(card, last_opt(old(self)@.cards)) ==> r is Err && final(self)@ == old(
                self,
            )@,
            pile_wf(old(self)@) ==> pile_wf(final(self)@),
    {
        let legal = match self.get_tail_of_revealed() {
            Some(last) => legality_check(&card, Some(last)),
            None => legality_check(&card, None),
        };
        if legal {
            self.add_card_unchecked(card);
            Ok(())
        } else {
            Err(IllegalGamePileAdd)
        }
    }

    /// Put one card on the column face up, without any rule check.
    pub fn add_card_unchecked(&mut self, card: Card)
        requires
            old(self)@.revealed < 255,
        ensures
            final(self)@ == push_view(old(self)@, card),
            pile_wf(old(self)@) ==> pile_wf(final(self)@),
    {
        self.cards.push(card);
        self.revealed = self.revealed + 1;
    }
}

/// The model of a column after its tail card was taken.
pub open spec fn pop_tail_view(p: PileView) -> PileView {
    PileView {
        cards: p.cards.drop_last(),
        revealed: if p.cards.len() - 1 == 0 {
            0nat
        } else if p.revealed > 1 {
            (p.revealed - 1) as nat
        } else {
            1nat
        },
    }
}

/// The model of a column after a card was laid face up on its tail.
pub open spec fn push_view(p: PileView, c: Card) -> PileView {
    PileView { cards: p.cards.push(c), revealed: p.revealed + 1 }
}

impl AcePile {
    /// An empty foundation.
    pub fn new() -> (p: AcePile)
        ensures
            p@.len() == 0,
    {
        AcePile { cards: Vec::new() }
    }

    /// Put one card on the foundation if its rule allows it; otherwise leave
    /// it untouched and report the refusal.
    pub fn add_card(&mut self, card: Card) -> (r: Result<(), IllegalAcePileAdd>)
        ensures
            spec_ace_legal(last_opt(old(self)@), card) ==> r is Ok && final(self)@ == old(
                self,
            )@.push(card),
            !spec_ace_legal(last_opt(old(self)@), card) ==> r is Err && final(self)@ == old(
                self,
            )@,
    {
        let legal = match self.top() {
            None => matches!(card.number, CardNum::Numeric(1)),
            Some(t) => {
                let same_suit = t.suit == card.suit;
                let tv = t.value_fr();
                let cv = card.value_fr();
                same_suit && tv + 1 == cv
            },
        };
        if legal {
            self.add_card_unchecked(card);
            Ok(())
        } else {
            Err(IllegalAcePileAdd)
        }
    }

    /// Put one card on the foundation without any rule check.
    pub fn add_card_unchecked(&mut self, card: Card)
        ensures
            final(self)@ == old(self)@.push(card),
    {
        self.cards.push(card);
    }

    /// The top card, if any.
    pub fn top(&self) -> (r: Option<&Card>)
        ensures
            match r {
                Some(c) => self@.len() > 0 && *c == self@.last(),
                None => self@.len() == 0,
            },
    {
        if self.cards.len() == 0 {
            None
        } else {
            Some(&self.cards[self.cards.len() - 1])
        }
    }

    /// Remove and return the top card, if any.
    pub fn pop(&mut self) -> (r: Option<Card>)
        ensures
            match r {
                Some(c) => {
                    &&& old(self)@.len() > 0
                    &&& c == old(self)@.last()
                    &&& final(self)@ == old(self)@.drop_last()
                },
                None => {
                    &&& old(self)@.len() == 0
                    &&& final(self)@ == old(self)@
                },
            },
    {
        self.cards.pop()
    }
}

/// The models of a run of tableau columns.
pub open spec fn pile_views(ps: Seq<GamePile>) -> Seq<PileView> {
    Seq::new(ps.len(), |i: int| ps[i]@)
}

/// The models of a run of foundation piles.
pub open spec fn ace_views(fs: Seq<AcePile>) -> Seq<Seq<Card>> {
    Seq::new(fs.len(), |i: int| fs[i]@)
}

/// Replacing one column exchanges exactly its cards in the tableau multiset.
proof fn lemma_piles_multiset_update(ps: Seq<PileView>, i: int, p: PileView)
    requires
        0 <= i < ps.len(),
    ensures
        piles_multiset(ps.update(i, p)).add(ps[i].cards.to_multiset()) == piles_multiset(
            ps,
        ).add(p.cards.to_multiset()),
    decreases ps.len(),
{
    let upd = ps.update(i, p);
    if i == ps.len() - 1 {
        assert(upd.drop_last() =~= ps.drop_last());
        assert(piles_multiset(upd).add(ps[i].cards.to_multiset()) =~= piles_multiset(ps).add(
            p.cards.to_multiset(),
        ));
    } else {
        let dl = ps.drop_last();
        lemma_piles_multiset_update(dl, i, p);
        assert(upd.drop_last() =~= dl.update(i, p));
        assert(upd.last() == ps.last());
        assert(dl[i] == ps[i]);
        let x = piles_multiset(dl.update(i, p));
        let y = piles_multiset(dl);
        let b = ps[i].cards.to_multiset();
        let l = ps.last().cards.to_multiset();
        let w = p.cards.to_multiset();
        assert(piles_multiset(upd).add(b) =~= x.add(l).add(b));
        assert(x.add(l).add(b) =~= x.add(b).add(l));
        assert(x.add(b).add(l) == y.add(w).add(l));
        assert(y.add(w).add(l) =~= y.add(l).add(w));
        assert(piles_multiset(ps).add(w) =~= y.add(l).add(w));
    }
}

/// Replacing one foundation exchanges exactly its cards in their multiset.
proof fn lemma_aces_multiset_update(fs: Seq<Seq<Card>>, i: int, f: Seq<Card>)
    requires
        0 <= i < fs.len(),
    ensures
        aces_multiset(fs.update(i, f)).add(fs[i].to_multiset()) == aces_multiset(fs).add(
            f.to_multiset(),
        ),
    decreases fs.len(),
{
    let upd = fs.update(i, f);
    let dl = fs.drop_last();
    if i == fs.len() - 1 {
        assert(upd.drop_last() =~= dl);
        assert(upd.last() == f);
        assert(aces_multiset(upd) == aces_multiset(dl).add(f.to_multiset()));
        assert(aces_multiset(fs) == aces_multiset(dl).add(fs[i].to_multiset()));
        assert(aces_multiset(upd).add(fs[i].to_multiset()) =~= aces_multiset(fs).add(
            f.to_multiset(),
        ));
    } else {
        lemma_aces_multiset_update(dl, i, f);
        assert(upd.drop_last() =~= dl.update(i, f));
        assert(upd.last() == fs.last());
        assert(dl[i] == fs[i]);
        let x = aces_multiset(dl.update(i, f));
        let y = aces_multiset(dl);
        let b = fs[i].to_multiset();
        let l = fs.last().to_multiset();
        let w = f.to_multiset();
        assert(aces_multiset(upd).add(b) =~= x.add(l).add(b));
        assert(x.add(l).add(b) =~= x.add(b).add(l));
        assert(x.add(b).add(l) == y.add(w).add(l));
        assert(y.add(w).add(l) =~= y.add(l).add(w));
        assert(aces_multiset(fs).add(w) =~= y.add(l).add(w));
    }
}

/// A run of empty foundations holds no card.
proof fn lemma_aces_multiset_empty(fs: Seq<Seq<Card>>)
    requires
        forall|i: int| 0 <= i < fs.len() ==> (#[trigger] fs[i]).len() == 0,
    ensures
        aces_multiset(fs) == Multiset::<Card>::empty(),
    decreases fs.len(),
{
    broadcast use group_to_multiset_ensures;

    if fs.len() > 0 {
        lemma_aces_multiset_empty(fs.drop_last());
        assert(fs.last().to_multiset() =~= Multiset::<Card>::empty());
        assert(aces_multiset(fs) =~= Multiset::<Card>::empty());
    }
}

/// Each column's cards are part of the tableau multiset.
proof fn lemma_pile_in_piles_multiset(ps: Seq<PileView>, i: int)
    requires
        0 <= i < ps.len(),
    ensures
        ps[i].cards.len() <= piles_multiset(ps).len(),
    decreases ps.len(),
{
    broadcast use group_to_multiset_ensures;

    if i == ps.len() - 1 {
    } else {
        lemma_pile_in_piles_multiset(ps.drop_last(), i);
    }
}

/// A table within its card budget keeps every zone within that budget.
proof fn lemma_zone_bounds(t: TableView)
    requires
        t.wf(),
    ensures
        forall|i: int| 0 <= i < 7 ==> (#[trigger] t.piles[i]).cards.len() <= 52,
        t.stack.len() <= 52,
        t.passed.len() <= 52,
{
    broadcast use group_to_multiset_ensures;

    assert forall|i: int| 0 <= i < 7 implies (#[trigger] t.piles[i]).cards.len() <= 52 by {
        lemma_pile_in_piles_multiset(t.piles, i);
    }
}

/// The spec model of the stock-to-waste draw: the stock's top card slides
/// under the waste; an empty stock swaps wholesale with the waste.
pub open spec fn draw_step(t: TableView) -> TableView {
    if t.stack.len() == 0 {
        TableView { stack: t.passed, passed: t.stack, ..t }
    } else {
        TableView { stack: t.stack.drop_last(), passed: seq![t.stack.last()] + t.passed, ..t }
    }
}

/// After a successful stock move, one waste card is promoted back on top of
/// the stock, keeping it primed.
pub open spec fn promote_from_passed(t: TableView) -> TableView {
    if t.passed.len() > 0 {
        TableView { stack: t.stack.push(t.passed.first()), passed: t.passed.drop_first(), ..t }
    } else {
        t
    }
}

/// The same table with another value of the move counter.
pub open spec fn with_moves(t: TableView, m: nat) -> TableView {
    TableView { moves: m, ..t }
}

/// Spec model of playing the stock's top card onto tableau column `p`.
pub open spec fn stack_to_pile_step(t: TableView, p: int) -> Result<TableView, MoveMakingError> {
    if t.stack.len() == 0 {
        Err(MoveMakingError::StackIsEmpty)
    } else {
        let c = t.stack.last();
        if spec_legal(c, last_opt(t.piles[p].cards)) {
            let t1 = TableView {
                piles: t.piles.update(p, push_view(t.piles[p], c)),
                stack: t.stack.drop_last(),
                ..t
            };
            Ok(promote_from_passed(t1))
        } else {
            Err(MoveMakingError::IllegalGamePileAdd(IllegalGamePileAdd))
        }
    }
}

/// Spec model of playing the stock's top card onto foundation `a`.
pub open spec fn stack_to_ace_step(t: TableView, a: int) -> Result<TableView, MoveMakingError> {
    if t.stack.len() == 0 {
        Err(MoveMakingError::StackIsEmpty)
    } else {
        let c = t.stack.last();
        if spec_ace_legal(last_opt(t.aces[a]), c) {
            let t1 = TableView {
                aces: t.aces.update(a, t.aces[a].push(c)),
                stack: t.stack.drop_last(),
                ..t
            };
            Ok(promote_from_passed(t1))
        } else {
            Err(MoveMakingError::IllegalAcePileAdd(IllegalAcePileAdd))
        }
    }
}

/// Spec model of moving column `p`'s tail card onto foundation `a`.
pub open spec fn pile_to_ace_step(t: TableView, p: int, a: int) -> Result<
    TableView,
    MoveMakingError,
> {
    if t.piles[p].cards.len() == 0 {
        Err(MoveMakingError::GamePileHasNoRevealed)
    } else {
        let c = t.piles[p].cards.last();
        if spec_ace_legal(last_opt(t.aces[a]), c) {
            Ok(
                TableView {
                    piles: t.piles.update(p, pop_tail_view(t.piles[p])),
                    aces: t.aces.update(a, t.aces[a].push(c)),
                    ..t
                },
            )
        } else {
            Err(MoveMakingError::IllegalAcePileAdd(IllegalAcePileAdd))
        }
    }
}

/// Spec model of moving foundation `a`'s top card onto column `p`.
pub open spec fn ace_to_pile_step(t: TableView, a: int, p: int) -> Result<
    TableView,
    MoveMakingError,
> {
    if t.aces[a].len() == 0 {
        Err(MoveMakingError::AcePileIsEmpty)
    } else {
        let c = t.aces[a].last();
        if spec_legal(c, last_opt(t.piles[p].cards)) {
            Ok(
                TableView {
                    piles: t.piles.update(p, push_view(t.piles[p], c)),
                    aces: t.aces.update(a, t.aces[a].drop_last()),
                    ..t
                },
            )
        } else {
            Err(MoveMakingError::IllegalGamePileAdd(IllegalGamePileAdd))
        }
    }
}

/// The revealed count of the source column after a block of `amount` cards
/// left it: decremented, floored at one while cards remain.
pub open spec fn src_revealed_after(p: PileView, amount: int) -> nat {
    if p.revealed - amount > 0 {
        (p.revealed - amount) as nat
    } else if p.cards.len() - amount > 0 {
        1nat
    } else {
        0nat
    }
}

/// Spec model of the tableau-to-tableau block move, preconditions checked in
/// order: index range, non-zero amount, enough revealed cards, distinct
/// columns, and the placement rule for the block's deepest card.
pub open spec fn move_pile_spec(t: TableView, from: int, to: int, amount: int) -> Result<
    TableView,
    GamePileMovingError,
> {
    if !(0 <= from < 7 && 0 <= to < 7) {
        Err(GamePileMovingError::PileOutOfRange)
    } else if amount <= 0 {
        Err(GamePileMovingError::AmountWasZero)
    } else if amount > t.piles[from].revealed {
        Err(GamePileMovingError::NotEnoughRevealedCards(amount as u8))
    } else if from == to {
        Err(GamePileMovingError::IllegalMove)
    } else {
        let src = t.piles[from];
        let dst = t.piles[to];
        let cut = src.cards.len() - amount;
        if spec_legal(src.cards[cut], last_opt(dst.cards)) {
            let src2 = PileView {
                cards: src.cards.take(cut),
                revealed: src_revealed_after(src, amount),
            };
            let dst2 = PileView {
                cards: dst.cards + src.cards.skip(cut),
                revealed: (dst.revealed + amount) as nat,
            };
            Ok(TableView { piles: t.piles.update(from, src2).update(to, dst2), ..t })
        } else {
            Err(GamePileMovingError::IllegalMove)
        }
    }
}

/// Spec model of the cycle command: the whole stock is drawn into the
/// waste; the composite counts one move per card drawn and none for itself.
pub open spec fn cycle_step(t: TableView) -> TableView {
    TableView {
        stack: Seq::empty(),
        passed: t.stack + t.passed,
        moves: if t.moves + t.stack.len() == 0 {
            1nat
        } else {
            (t.moves + t.stack.len()) as nat
        },
        ..t
    }
}

/// One validated transition of the whole table, per structured command.
/// Every successful transition other than the cycle's own correction raises
/// the move counter by exactly one; a refused one changes nothing.
pub open spec fn table_step(t: TableView, pm: ParsedMove) -> Result<
    (TableView, MoveOutcome),
    MoveMakingError,
> {
    match pm {
        ParsedMove::Undo => Ok(
            (with_moves(t, (t.moves + 1) as nat), MoveOutcome::UndoRequested),
        ),
        ParsedMove::Quit => Ok((t, MoveOutcome::Quit)),
        ParsedMove::Cycle => Ok((cycle_step(t), MoveOutcome::Continue)),
        ParsedMove::RevealNextOfStack => Ok(
            (with_moves(draw_step(t), (t.moves + 1) as nat), MoveOutcome::Continue),
        ),
        ParsedMove::MoveFromStackToPile(p) => match stack_to_pile_step(t, p as int) {
            Ok(t2) => Ok((with_moves(t2, (t.moves + 1) as nat), MoveOutcome::Continue)),
            Err(e) => Err(e),
        },
        ParsedMove::MoveFromStackToAce(a) => match stack_to_ace_step(t, a as int) {
            Ok(t2) => Ok((with_moves(t2, (t.moves + 1) as nat), MoveOutcome::Continue)),
            Err(e) => Err(e),
        },
        ParsedMove::MoveFromPileToPile { from, to, amount } => match move_pile_spec(
            t,
            from as int,
            to as int,
            amount as int,
        ) {
            Ok(t2) => Ok((with_moves(t2, (t.moves + 1) as nat), MoveOutcome::Continue)),
            Err(e) => Err(MoveMakingError::MovingGamePile(e)),
        },
        ParsedMove::MoveFromPileToAce { pile, ace } => match pile_to_ace_step(
            t,
            pile as int,
            ace as int,
        ) {
            Ok(t2) => Ok((with_moves(t2, (t.moves + 1) as nat), MoveOutcome::Continue)),
            Err(e) => Err(e),
        },
        ParsedMove::MoveFromAceToPile { ace, pile } => match ace_to_pile_step(
            t,
            ace as int,
            pile as int,
        ) {
            Ok(t2) => Ok((with_moves(t2, (t.moves + 1) as nat), MoveOutcome::Continue)),
            Err(e) => Err(e),
        },
    }
}

/// Taking a sequence's last element moves one card out of its multiset.
proof fn lemma_tm_pop_last(s: Seq<Card>)
    requires
        s.len() > 0,
    ensures
        s.to_multiset() == s.drop_last().to_multiset().insert(s.last()),
{
    broadcast use group_to_multiset_ensures;

    assert(s =~= s.drop_last().push(s.last()));
}

/// Sliding a card in front of a sequence adds it to the multiset.
proof fn lemma_tm_prepend(c: Card, s: Seq<Card>)
    ensures
        (seq![c] + s).to_multiset() == s.to_multiset().insert(c),
{
    broadcast use group_to_multiset_ensures;

    lemma_multiset_commutative(seq![c], s);
    assert(seq![c] =~= Seq::<Card>::empty().push(c));
    assert(Seq::<Card>::empty().to_multiset() =~= Multiset::<Card>::empty());
    assert(Multiset::<Card>::empty().insert(c).add(s.to_multiset()) =~= s.to_multiset().insert(
        c,
    ));
}

/// Taking a sequence's first element moves one card out of its multiset.
proof fn lemma_tm_pop_first(s: Seq<Card>)
    requires
        s.len() > 0,
    ensures
        s.to_multiset() == s.drop_first().to_multiset().insert(s.first()),
{
    assert(s =~= seq![s.first()] + s.drop_first());
    lemma_tm_prepend(s.first(), s.drop_first());
}

/// The block move preserves well-formedness and the multiset of cards:
/// whenever `move_pile_spec` accepts, the resulting table holds exactly the
/// cards of the old one.
pub proof fn lemma_move_pile_spec_ok(t: TableView, from: int, to: int, amount: int)
    requires
        t.wf(),
    ensures
        match move_pile_spec(t, from, to, amount) {
            Ok(t2) => t2.wf() && t2.cards_multiset() == t.cards_multiset(),
            Err(_) => true,
        },
{
    broadcast use group_to_multiset_ensures;

    if 0 <= from < 7 && 0 <= to < 7 && amount >= 1 && amount <= t.piles[from].revealed && from
        != to {
        assert(pile_wf(t.piles[from]));
        assert(pile_wf(t.piles[to]));
        let src = t.piles[from];
        let dst = t.piles[to];
        let cut = src.cards.len() - amount;
        if spec_legal(src.cards[cut], last_opt(dst.cards)) {
            let src2 = PileView {
                cards: src.cards.take(cut),
                revealed: src_revealed_after(src, amount),
            };
            let dst2 = PileView {
                cards: dst.cards + src.cards.skip(cut),
                revealed: (dst.revealed + amount) as nat,
            };
            let piles2 = t.piles.update(from, src2).update(to, dst2);
            let t2 = TableView { piles: piles2, ..t };
            assert(move_pile_spec(t, from, to, amount) == Ok::<TableView, GamePileMovingError>(
                t2,
            ));
            lemma_multiset_commutative(src.cards.take(cut), src.cards.skip(cut));
            assert(src.cards.take(cut) + src.cards.skip(cut) =~= src.cards);
            lemma_multiset_commutative(dst.cards, src.cards.skip(cut));
            lemma_piles_multiset_update(t.piles, from, src2);
            assert(t.piles.update(from, src2)[to] == dst);
            lemma_piles_multiset_update(t.piles.update(from, src2), to, dst2);
            let u1 = t.piles.update(from, src2);
            let sm = src.cards.to_multiset();
            let s2m = src2.cards.to_multiset();
            let dm = dst.cards.to_multiset();
            let d2m = dst2.cards.to_multiset();
            let bm = src.cards.skip(cut).to_multiset();
            assert forall|x: Card|
                piles_multiset(piles2).count(x) == piles_multiset(t.piles).count(x) by {
                assert(piles_multiset(u1).add(sm).count(x) == piles_multiset(u1).count(x)
                    + sm.count(x));
                assert(piles_multiset(t.piles).add(s2m).count(x) == piles_multiset(
                    t.piles,
                ).count(x) + s2m.count(x));
                assert(piles_multiset(piles2).add(dm).count(x) == piles_multiset(piles2).count(x)
                    + dm.count(x));
                assert(piles_multiset(u1).add(d2m).count(x) == piles_multiset(u1).count(x)
                    + d2m.count(x));
                assert(sm.count(x) == s2m.add(bm).count(x));
                assert(s2m.add(bm).count(x) == s2m.count(x) + bm.count(x));
                assert(d2m.count(x) == dm.add(bm).count(x));
                assert(dm.add(bm).count(x) == dm.count(x) + bm.count(x));
            }
            assert(piles_multiset(piles2) =~= piles_multiset(t.piles));
            assert(t2.cards_multiset() =~= t.cards_multiset());
            assert(pile_wf(src2));
            assert(pile_wf(dst2));
            assert forall|j: int| 0 <= j < 7 implies pile_wf(#[trigger] t2.piles[j]) by {
                if j != from && j != to {
                    assert(t2.piles[j] == t.piles[j]);
                }
            }
        }
    }
}

/// A table's cards, counted zone by zone.
proof fn lemma_cm_counts(t: TableView, x: Card)
    ensures
        t.cards_multiset().count(x) == piles_multiset(t.piles).count(x) + aces_multiset(
            t.aces,
        ).count(x) + t.stack.to_multiset().count(x) + t.passed.to_multiset().count(x),
{
}

/// The draw keeps the table well formed and conserves its cards.
proof fn lemma_draw_ok(t: TableView)
    requires
        t.wf(),
    ensures
        draw_step(t).wf(),
        draw_step(t).cards_multiset() == t.cards_multiset(),
{
    broadcast use group_to_multiset_ensures;

    let t2 = draw_step(t);
    if t.stack.len() == 0 {
        assert forall|x: Card| t2.cards_multiset().count(x) == t.cards_multiset().count(x) by {
            lemma_cm_counts(t, x);
            lemma_cm_counts(t2, x);
        }
    } else {
        let c = t.stack.last();
        lemma_tm_pop_last(t.stack);
        lemma_tm_prepend(c, t.passed);
        assert forall|x: Card| t2.cards_multiset().count(x) == t.cards_multiset().count(x) by {
            lemma_cm_counts(t, x);
            lemma_cm_counts(t2, x);
        }
    }
    assert(t2.cards_multiset() =~= t.cards_multiset());
}

/// Promoting one waste card back onto the stock conserves the cards and
/// leaves every other zone alone.
proof fn lemma_promote_conserves(t: TableView)
    ensures
        promote_from_passed(t).cards_multiset() == t.cards_multiset(),
        promote_from_passed(t).piles == t.piles,
        promote_from_passed(t).aces == t.aces,
        promote_from_passed(t).moves == t.moves,
{
    broadcast use group_to_multiset_ensures;

    let t2 = promote_from_passed(t);
    if t.passed.len() > 0 {
        let c = t.passed.first();
        lemma_tm_pop_first(t.passed);
        assert forall|x: Card| t2.cards_multiset().count(x) == t.cards_multiset().count(x) by {
            lemma_cm_counts(t, x);
            lemma_cm_counts(t2, x);
        }
        assert(t2.cards_multiset() =~= t.cards_multiset());
    }
}

/// Playing the stock's top card onto a column keeps the table well formed
/// and conserves its cards.
proof fn lemma_stack_to_pile_ok(t: TableView, p: int)
    requires
        t.wf(),
        0 <= p < 7,
    ensures
        match stack_to_pile_step(t, p) {
            Ok(t2) => t2.wf() && t2.cards_multiset() == t.cards_multiset(),
            Err(_) => true,
        },
{
    broadcast use group_to_multiset_ensures;

    if t.stack.len() > 0 {
        let c = t.stack.last();
        if spec_legal(c, last_opt(t.piles[p].cards)) {
            assert(pile_wf(t.piles[p]));
            let np = push_view(t.piles[p], c);
            let t1 = TableView {
                piles: t.piles.update(p, np),
                stack: t.stack.drop_last(),
                ..t
            };
            lemma_piles_multiset_update(t.piles, p, np);
            lemma_tm_pop_last(t.stack);
            assert(np.cards.to_multiset() == t.piles[p].cards.to_multiset().insert(c));
            assert forall|x: Card| t1.cards_multiset().count(x) == t.cards_multiset().count(
                x,
            ) by {
                lemma_cm_counts(t, x);
                lemma_cm_counts(t1, x);
                assert(piles_multiset(t1.piles).add(t.piles[p].cards.to_multiset()).count(x)
                    == piles_multiset(t1.piles).count(x) + t.piles[p].cards.to_multiset().count(
                    x,
                ));
                assert(piles_multiset(t.piles).add(np.cards.to_multiset()).count(x)
                    == piles_multiset(t.piles).count(x) + np.cards.to_multiset().count(x));
            }
            assert(t1.cards_multiset() =~= t.cards_multiset());
            lemma_promote_conserves(t1);
            let t2 = promote_from_passed(t1);
            assert(pile_wf(np));
            assert forall|j: int| 0 <= j < 7 implies pile_wf(#[trigger] t2.piles[j]) by {
                if j != p {
                    assert(t2.piles[j] == t.piles[j]);
                }
            }
            assert(t2.wf());
        }
    }
}

/// Playing the stock's top card onto a foundation keeps the table well
/// formed and conserves its cards.
proof fn lemma_stack_to_ace_ok(t: TableView, a: int)
    requires
        t.wf(),
        0 <= a < 4,
    ensures
        match stack_to_ace_step(t, a) {
            Ok(t2) => t2.wf() && t2.cards_multiset() == t.cards_multiset(),
            Err(_) => true,
        },
{
    broadcast use group_to_multiset_ensures;

    if t.stack.len() > 0 {
        let c = t.stack.last();
        if spec_ace_legal(last_opt(t.aces[a]), c) {
            let nf = t.aces[a].push(c);
            let t1 = TableView { aces: t.aces.update(a, nf), stack: t.stack.drop_last(), ..t };
            lemma_aces_multiset_update(t.aces, a, nf);
            lemma_tm_pop_last(t.stack);
            assert(nf.to_multiset() == t.aces[a].to_multiset().insert(c));
            assert forall|x: Card| t1.cards_multiset().count(x) == t.cards_multiset().count(
                x,
            ) by {
                lemma_cm_counts(t, x);
                lemma_cm_counts(t1, x);
                assert(aces_multiset(t1.aces).add(t.aces[a].to_multiset()).count(x)
                    == aces_multiset(t1.aces).count(x) + t.aces[a].to_multiset().count(x));
                assert(aces_multiset(t.aces).add(nf.to_multiset()).count(x) == aces_multiset(
                    t.aces,
                ).count(x) + nf.to_multiset().count(x));
            }
            assert(t1.cards_multiset() =~= t.cards_multiset());
            lemma_promote_conserves(t1);
            let t2 = promote_from_passed(t1);
            assert forall|j: int| 0 <= j < 7 implies pile_wf(#[trigger] t2.piles[j]) by {
                assert(t2.piles[j] == t.piles[j]);
            }
            assert(t2.wf());
        }
    }
}

/// Moving a column's tail card to a foundation keeps the table well formed
/// and conserves its cards.
proof fn lemma_pile_to_ace_ok(t: TableView, p: int, a: int)
    requires
        t.wf(),
        0 <= p < 7,
        0 <= a < 4,
    ensures
        match pile_to_ace_step(t, p, a) {
            Ok(t2) => t2.wf() && t2.cards_multiset() == t.cards_multiset(),
            Err(_) => true,
        },
{
    broadcast use group_to_multiset_ensures;

    if t.piles[p].cards.len() > 0 {
        let c = t.piles[p].cards.last();
        if spec_ace_legal(last_opt(t.aces[a]), c) {
            assert(pile_wf(t.piles[p]));
            let np = pop_tail_view(t.piles[p]);
            let nf = t.aces[a].push(c);
            let t2 = TableView { piles: t.piles.update(p, np), aces: t.aces.update(a, nf), ..t };
            lemma_piles_multiset_update(t.piles, p, np);
            lemma_aces_multiset_update(t.aces, a, nf);
            lemma_tm_pop_last(t.piles[p].cards);
            assert(nf.to_multiset() == t.aces[a].to_multiset().insert(c));
            assert forall|x: Card| t2.cards_multiset().count(x) == t.cards_multiset().count(
                x,
            ) by {
                lemma_cm_counts(t, x);
                lemma_cm_counts(t2, x);
                assert(piles_multiset(t2.piles).add(t.piles[p].cards.to_multiset()).count(x)
                    == piles_multiset(t2.piles).count(x) + t.piles[p].cards.to_multiset().count(
                    x,
                ));
                assert(piles_multiset(t.piles).add(np.cards.to_multiset()).count(x)
                    == piles_multiset(t.piles).count(x) + np.cards.to_multiset().count(x));
                assert(aces_multiset(t2.aces).add(t.aces[a].to_multiset()).count(x)
                    == aces_multiset(t2.aces).count(x) + t.aces[a].to_multiset().count(x));
                assert(aces_multiset(t.aces).add(nf.to_multiset()).count(x) == aces_multiset(
                    t.aces,
                ).count(x) + nf.to_multiset().count(x));
            }
            assert(t2.cards_multiset() =~= t.cards_multiset());
            assert(pile_wf(np));
            assert forall|j: int| 0 <= j < 7 implies pile_wf(#[trigger] t2.piles[j]) by {
                if j != p {
                    assert(t2.piles[j] == t.piles[j]);
                }
            }
            assert(t2.wf());
        }
    }
}

/// Moving a foundation's top card back to a column keeps the table well
/// formed and conserves its cards.
proof fn lemma_ace_to_pile_ok(t: TableView, a: int, p: int)
    requires
        t.wf(),
        0 <= p < 7,
        0 <= a < 4,
    ensures
        match ace_to_pile_step(t, a, p) {
            Ok(t2) => t2.wf() && t2.cards_multiset() == t.cards_multiset(),
            Err(_) => true,
        },
{
    broadcast use group_to_multiset_ensures;

    if t.aces[a].len() > 0 {
        let c = t.aces[a].last();
        if spec_legal(c, last_opt(t.piles[p].cards)) {
            assert(pile_wf(t.piles[p]));
            let np = push_view(t.piles[p], c);
            let nf = t.aces[a].drop_last();
            let t2 = TableView { piles: t.piles.update(p, np), aces: t.aces.update(a, nf), ..t };
            lemma_piles_multiset_update(t.piles, p, np);
            lemma_aces_multiset_update(t.aces, a, nf);
            lemma_tm_pop_last(t.aces[a]);
            assert(np.cards.to_multiset() == t.piles[p].cards.to_multiset().insert(c));
            assert forall|x: Card| t2.cards_multiset().count(x) == t.cards_multiset().count(
                x,
            ) by {
                lemma_cm_counts(t, x);
                lemma_cm_counts(t2, x);
                assert(piles_multiset(t2.piles).add(t.piles[p].cards.to_multiset()).count(x)
                    == piles_multiset(t2.piles).count(x) + t.piles[p].cards.to_multiset().count(
                    x,
                ));
                assert(piles_multiset(t.piles).add(np.cards.to_multiset()).count(x)
                    == piles_multiset(t.piles).count(x) + np.cards.to_multiset().count(x));
                assert(aces_multiset(t2.aces).add(t.aces[a].to_multiset()).count(x)
                    == aces_multiset(t2.aces).count(x) + t.aces[a].to_multiset().count(x));
                assert(aces_multiset(t.aces).add(nf.to_multiset()).count(x) == aces_multiset(
                    t.aces,
                ).count(x) + nf.to_multiset().count(x));
            }
            assert(t2.cards_multiset() =~= t.cards_multiset());
            assert(pile_wf(np));
            assert forall|j: int| 0 <= j < 7 implies pile_wf(#[trigger] t2.piles[j]) by {
                if j != p {
                    assert(t2.piles[j] == t.piles[j]);
                }
            }
            assert(t2.wf());
        }
    }
}

/// Flushing the whole stock into the waste keeps the table well formed and
/// conserves its cards.
proof fn lemma_cycle_ok(t: TableView)
    requires
        t.wf(),
    ensures
        cycle_step(t).wf(),
        cycle_step(t).cards_multiset() == t.cards_multiset(),
{
    broadcast use group_to_multiset_ensures;

    let t2 = cycle_step(t);
    lemma_multiset_commutative(t.stack, t.passed);
    assert(Seq::<Card>::empty().to_multiset() =~= Multiset::<Card>::empty());
    assert forall|x: Card| t2.cards_multiset().count(x) == t.cards_multiset().count(x) by {
        lemma_cm_counts(t, x);
        lemma_cm_counts(t2, x);
        assert(t.stack.to_multiset().add(t.passed.to_multiset()).count(x)
            == t.stack.to_multiset().count(x) + t.passed.to_multiset().count(x));
    }
    assert(t2.cards_multiset() =~= t.cards_multiset());
}

/// Total-card conservation: every transition that `table_step` accepts
/// yields a well-formed table holding exactly the cards of the old one,
/// whatever the command was.
pub proof fn lemma_table_step_ok(t: TableView, pm: ParsedMove)
    requires
        t.wf(),
        pm_wf(pm),
    ensures
        match table_step(t, pm) {
            Ok((t2, _out)) => t2.wf() && t2.cards_multiset() == t.cards_multiset(),
            Err(_) => true,
        },
{
    match pm {
        ParsedMove::Undo => {},
        ParsedMove::Quit => {},
        ParsedMove::Cycle => {
            lemma_cycle_ok(t);
        },
        ParsedMove::RevealNextOfStack => {
            lemma_draw_ok(t);
        },
        ParsedMove::MoveFromStackToPile(p) => {
            lemma_stack_to_pile_ok(t, p as int);
        },
        ParsedMove::MoveFromStackToAce(a) => {
            lemma_stack_to_ace_ok(t, a as int);
        },
        ParsedMove::MoveFromPileToPile { from, to, amount } => {
            lemma_move_pile_spec_ok(t, from as int, to as int, amount as int);
        },
        ParsedMove::MoveFromPileToAce { pile, ace } => {
            lemma_pile_to_ace_ok(t, pile as int, ace as int);
        },
        ParsedMove::MoveFromAceToPile { ace, pile } => {
            lemma_ace_to_pile_ok(t, ace as int, pile as int);
        },
    }
}

/// The number of cards dealt into the first `n` tableau columns.
spec fn tri(n: int) -> int
    decreases n,
{
    if n <= 0 {
        0
    } else {
        tri(n - 1) + n
    }
}

proof fn lemma_tri_mono(a: int, b: int)
    requires
        0 <= a <= b,
    ensures
        tri(a) <= tri(b),
    decreases b - a,
{
    if a < b {
        lemma_tri_mono(a, b - 1);
    }
}

impl Table {
    /// Deal a fresh game: a shuffled long deck laid out so that column `i`
    /// receives `i + 1` cards with only the last face up, the remaining 24
    /// cards forming the stock.
    pub fn new() -> (t: Table)
        ensures
            t@.wf(),
            t@.moves == 0,
            t@.cards_multiset() == french_deck().to_multiset(),
            forall|i: int|
                0 <= i < 7 ==> (#[trigger] t@.piles[i]).cards.len() == i + 1
                    && t@.piles[i].revealed == 1,
            forall|i: int| 0 <= i < 4 ==> (#[trigger] t@.aces[i]).len() == 0,
            t@.passed.len() == 0,
            t@.stack.len() == 24,
    {
        let mut deck = Card::shuffled_french_deck();
        proof {
            broadcast use group_to_multiset_ensures;

            assert(tri(7) == 28) by {
                reveal_with_fuel(tri, 9);
            }
        }
        let mut piles: Vec<GamePile> = Vec::new();
        let mut p: usize = 0;
        while p < 7
            invariant
                p <= 7,
                piles@.len() == p,
                forall|i: int|
                    0 <= i < p ==> (#[trigger] pile_views(piles@)[i]).cards.len() == i + 1
                        && pile_views(piles@)[i].revealed == 1,
                deck@.len() == 52 - tri(p as int),
                piles_multiset(pile_views(piles@)).add(deck@.to_multiset()) == french_deck(
                ).to_multiset(),
            decreases 7 - p,
        {
            let ghost piles_before = piles@;
            let mut pile = GamePile { cards: Vec::new(), revealed: 1 };
            let mut q: usize = 0;
            proof {
                broadcast use group_to_multiset_ensures;

                lemma_tri_mono(p as int, 6);
                assert(tri(6) == 21) by {
                    reveal_with_fuel(tri, 8);
                }
                assert(pile@.cards.to_multiset() =~= Multiset::<Card>::empty());
                assert(piles_multiset(pile_views(piles@)).add(pile@.cards.to_multiset()).add(
                    deck@.to_multiset(),
                ) =~= french_deck().to_multiset());
            }
            while q < p + 1
                invariant
                    q <= p + 1,
                    p < 7,
                    tri(p as int) <= 21,
                    pile@.cards.len() == q,
                    pile@.revealed == 1,
                    piles@ == piles_before,
                    piles@.len() == p,
                    deck@.len() == 52 - tri(p as int) - q,
                    piles_multiset(pile_views(piles@)).add(pile@.cards.to_multiset()).add(
                        deck@.to_multiset(),
                    ) == french_deck().to_multiset(),
                decreases p + 1 - q,
            {
                let ghost deck_before = deck@;
                let card = deck.take_from_top().unwrap();
                pile.cards.push(card);
                q = q + 1;
                proof {
                    broadcast use group_to_multiset_ensures;

                    assert(deck_before =~= deck@.push(card));
                    assert(piles_multiset(pile_views(piles@)).add(pile@.cards.to_multiset()).add(
                        deck@.to_multiset(),
                    ) =~= french_deck().to_multiset());
                }
            }
            piles.push(pile);
            p = p + 1;
            proof {
                broadcast use group_to_multiset_ensures;

                assert(pile_views(piles@).drop_last() =~= pile_views(piles_before));
                assert(pile_views(piles@).last() == pile@);
                assert(piles_multiset(pile_views(piles@)).add(deck@.to_multiset())
                    =~= french_deck().to_multiset());
                assert forall|i: int|
                    0 <= i < p implies (#[trigger] pile_views(piles@)[i]).cards.len() == i + 1
                    && pile_views(piles@)[i].revealed == 1 by {
                    if i < p - 1 {
                        assert(pile_views(piles@)[i] == pile_views(piles_before)[i]);
                    } else {
                        assert(pile_views(piles@)[i] == pile@);
                    }
                }
            }
        }
        let mut aces: Vec<AcePile> = Vec::new();
        aces.push(AcePile::new());
        aces.push(AcePile::new());
        aces.push(AcePile::new());
        aces.push(AcePile::new());
        let t = Table { piles, stack: deck, passed_stack: Deck::new(), aces, moves: 0 };
        proof {
            broadcast use group_to_multiset_ensures;

            assert(t@.piles =~= pile_views(t.piles@));
            assert(t@.aces =~= ace_views(t.aces@));
            lemma_aces_multiset_empty(t@.aces);
            assert(t.passed_stack@.to_multiset() =~= Multiset::<Card>::empty());
            assert(t@.cards_multiset() =~= french_deck().to_multiset());
            assert(french_deck().len() == 52);
            assert(t@.cards_multiset().len() == 52);
        }
        t
    }

    /// Move a block of `amount` cards from one tableau column to another.
    /// Preconditions are checked in the order of `move_pile_spec`, and the
    /// table changes only when every one of them holds: the whole block is
    /// relocated in order, the destination reveals `amount` more cards, the
    /// source that many fewer (its new tail flipped face up if need be), and
    /// no card is created or lost.
    pub fn move_pile(&mut self, from_idx: u8, to_idx: u8, amount: u8) -> (r: Result<
        (),
        GamePileMovingError,
    >)
        requires
            old(self)@.wf(),
        ensures
            final(self)@.wf(),
            final(self)@.cards_multiset() == old(self)@.cards_multiset(),
            match move_pile_spec(old(self)@, from_idx as int, to_idx as int, amount as int) {
                Ok(t2) => r is Ok && final(self)@ == t2,
                Err(e) => r == Err::<(), GamePileMovingError>(e) && final(self)@ == old(self)@,
            },
    {
        let ghost pre = self@;
        if from_idx >= 7 || to_idx >= 7 {
            return Err(GamePileMovingError::PileOutOfRange);
        }
        if amount == 0 {
            return Err(GamePileMovingError::AmountWasZero);
        }
        let from = from_idx as usize;
        let to = to_idx as usize;
        proof {
            assert(pre.piles[from as int] == self.piles@[from as int]@);
            assert(pre.piles[to as int] == self.piles@[to as int]@);
            lemma_zone_bounds(pre);
        }
        if amount > self.piles[from].revealed {
            return Err(GamePileMovingError::NotEnoughRevealedCards(amount));
        }
        if from == to {
            return Err(GamePileMovingError::IllegalMove);
        }
        let n = self.piles[from].cards.len();
        let cut = n - amount as usize;
        let base = self.piles[from].cards[cut];
        let legal = match self.piles[to].get_tail_of_revealed() {
            Some(c) => legality_check(&base, Some(c)),
            None => legality_check(&base, None),
        };
        if !legal {
            return Err(GamePileMovingError::IllegalMove);
        }
        let ghost src = pre.piles[from as int];
        let ghost dst = pre.piles[to as int];
        let mut block: Vec<Card>;
        {
            let src_ref = &mut self.piles[from];
            block = src_ref.cards.split_off(cut);
            let sr = src_ref.revealed;
            src_ref.revealed = sr - amount;
            if src_ref.revealed == 0 && src_ref.cards.len() > 0 {
                src_ref.revealed = 1;
            }
        }
        {
            let dst_ref = &mut self.piles[to];
            dst_ref.cards.append(&mut block);
            let dr = dst_ref.revealed;
            dst_ref.revealed = dr + amount;
        }
        proof {
            let cutg = cut as int;
            let src2 = PileView {
                cards: src.cards.take(cutg),
                revealed: src_revealed_after(src, amount as int),
            };
            let dst2 = PileView {
                cards: dst.cards + src.cards.skip(cutg),
                revealed: (dst.revealed + amount) as nat,
            };
            let piles2 = pre.piles.update(from as int, src2).update(to as int, dst2);
            assert(self@.piles =~~= piles2);
            assert(match move_pile_spec(pre, from_idx as int, to_idx as int, amount as int) {
                Ok(t2) => self@ =~~= t2,
                Err(_) => false,
            });
            lemma_move_pile_spec_ok(pre, from_idx as int, to_idx as int, amount as int);
        }
        Ok(())
    }

    /// Whether the game is won: every tableau column fully face up.
    pub fn has_won(&self) -> (r: bool)
        ensures
            r == self@.won(),
    {
        let mut i: usize = 0;
        let mut all: bool = true;
        while i < self.piles.len()
            invariant
                i <= self.piles@.len(),
                all ==> forall|j: int|
                    0 <= j < i ==> (#[trigger] self@.piles[j]).cards.len()
                        == self@.piles[j].revealed,
                !all ==> exists|j: int|
                    0 <= j < i && (#[trigger] self@.piles[j]).cards.len()
                        != self@.piles[j].revealed,
            decreases self.piles@.len() - i,
        {
            let pile = &self.piles[i];
            proof {
                assert(self@.piles[i as int] == self.piles@[i as int]@);
            }
            if pile.cards.len() != pile.revealed as usize {
                all = false;
            }
            i = i + 1;
        }
        proof {
            if !all {
                let j = choose|j: int|
                    0 <= j < i && (#[trigger] self@.piles[j]).cards.len()
                        != self@.piles[j].revealed;
                assert(!self@.won());
            }
        }
        all
    }

    /// Draw the next stock card: its top slides under the waste, or an
    /// empty stock is swapped wholesale with the waste.
    fn draw_from_stack(&mut self)
        ensures
            final(self)@ == draw_step(old(self)@),
    {
        let ghost pre = self@;
        if self.stack.is_empty() {
            std::mem::swap(&mut self.stack, &mut self.passed_stack);
            proof {
                assert(self@ =~~= draw_step(pre));
            }
        } else {
            let c = self.stack.take_from_top().unwrap();
            self.passed_stack.push_to_bottom(c);
            proof {
                assert(self@ =~~= draw_step(pre));
            }
        }
    }

    /// After a successful stock move, pull one waste card back on top of
    /// the stock, keeping it primed.
    fn promote_one_from_passed(&mut self)
        ensures
            final(self)@ == promote_from_passed(old(self)@),
    {
        let ghost pre = self@;
        if !self.passed_stack.is_empty() {
            let c = self.passed_stack.take_from_bottom().unwrap();
            self.stack.push_to_top(c);
        }
        proof {
            assert(self@ =~~= promote_from_passed(pre));
        }
    }

    /// Carry out one structured move. On success the table takes exactly
    /// the transition `table_step` describes and the outcome tells the host
    /// loop what to do; on any refusal the table is left untouched and the
    /// exact error comes back. Either way no card is created or lost.
    pub fn apply_move(&mut self, pm: ParsedMove) -> (r: Result<MoveOutcome, MoveMakingError>)
        requires
            old(self)@.wf(),
            pm_wf(pm),
            old(self).moves + 53 <= usize::MAX,
        ensures
            final(self)@.wf(),
            final(self)@.cards_multiset() == old(self)@.cards_multiset(),
            match table_step(old(self)@, pm) {
                Ok((t2, out)) => r == Ok::<MoveOutcome, MoveMakingError>(out) && final(self)@
                    == t2,
                Err(e) => r == Err::<MoveOutcome, MoveMakingError>(e) && final(self)@ == old(
                    self,
                )@,
            },
    {
        let ghost pre = self@;
        proof {
            lemma_zone_bounds(pre);
            lemma_table_step_ok(pre, pm);
        }
        match pm {
            ParsedMove::Undo => {
                self.moves = self.moves + 1;
                proof {
                    assert(self@ =~~= with_moves(pre, (pre.moves + 1) as nat));
                }
                Ok(MoveOutcome::UndoRequested)
            },
            ParsedMove::Quit => Ok(MoveOutcome::Quit),
            ParsedMove::RevealNextOfStack => {
                self.draw_from_stack();
                self.moves = self.moves + 1;
                proof {
                    assert(self@ =~~= with_moves(draw_step(pre), (pre.moves + 1) as nat));
                }
                Ok(MoveOutcome::Continue)
            },
            ParsedMove::MoveFromStackToPile(p) => {
                if self.stack.is_empty() {
                    return Err(MoveMakingError::StackIsEmpty);
                }
                let c = *self.stack.top().unwrap();
                let pi = p as usize;
                proof {
                    assert(pre.piles[pi as int] == self.piles@[pi as int]@);
                    assert(pile_wf(pre.piles[pi as int]));
                }
                let res = self.piles[pi].add_card(c);
                match res {
                    Err(e) => {
                        proof {
                            assert(self@ =~~= pre);
                        }
                        Err(MoveMakingError::IllegalGamePileAdd(e))
                    },
                    Ok(()) => {
                        let ghost t1 = TableView {
                            piles: pre.piles.update(pi as int, push_view(pre.piles[pi as int], c)),
                            stack: pre.stack.drop_last(),
                            ..pre
                        };
                        let _ = self.stack.take_from_top();
                        proof {
                            assert(self@ =~~= t1);
                        }
                        self.promote_one_from_passed();
                        self.moves = self.moves + 1;
                        proof {
                            assert(self@ =~~= with_moves(
                                promote_from_passed(t1),
                                (pre.moves + 1) as nat,
                            ));
                        }
                        Ok(MoveOutcome::Continue)
                    },
                }
            },
            ParsedMove::MoveFromStackToAce(a) => {
                if self.stack.is_empty() {
                    return Err(MoveMakingError::StackIsEmpty);
                }
                let c = *self.stack.top().unwrap();
                let ai = a as usize;
                proof {
                    assert(pre.aces[ai as int] == self.aces@[ai as int]@);
                }
                let res = self.aces[ai].add_card(c);
                match res {
                    Err(e) => {
                        proof {
                            assert(self@ =~~= pre);
                        }
                        Err(MoveMakingError::IllegalAcePileAdd(e))
                    },
                    Ok(()) => {
                        let ghost t1 = TableView {
                            aces: pre.aces.update(ai as int, pre.aces[ai as int].push(c)),
                            stack: pre.stack.drop_last(),
                            ..pre
                        };
                        let _ = self.stack.take_from_top();
                        proof {
                            assert(self@ =~~= t1);
                        }
                        self.promote_one_from_passed();
                        self.moves = self.moves + 1;
                        proof {
                            assert(self@ =~~= with_moves(
                                promote_from_passed(t1),
                                (pre.moves + 1) as nat,
                            ));
                        }
                        Ok(MoveOutcome::Continue)
                    },
                }
            },
            ParsedMove::MoveFromPileToPile { from, to, amount } => {
                let res = self.move_pile(from, to, amount);
                match res {
                    Err(e) => Err(MoveMakingError::MovingGamePile(e)),
                    Ok(()) => {
                        self.moves = self.moves + 1;
                        proof {
                            assert(match move_pile_spec(pre, from as int, to as int, amount as int) {
                                Ok(t2) => self@ =~~= with_moves(t2, (pre.moves + 1) as nat),
                                Err(_) => false,
                            });
                        }
                        Ok(MoveOutcome::Continue)
                    },
                }
            },
            ParsedMove::MoveFromPileToAce { pile, ace } => {
                let pi = pile as usize;
                let ai = ace as usize;
                proof {
                    assert(pre.piles[pi as int] == self.piles@[pi as int]@);
                    assert(pre.aces[ai as int] == self.aces@[ai as int]@);
                    assert(pile_wf(pre.piles[pi as int]));
                }
                let tail: Option<Card> = match self.piles[pi].get_tail_of_revealed() {
                    Some(c) => Some(*c),
                    None => None,
                };
                match tail {
                    None => Err(MoveMakingError::GamePileHasNoRevealed),
                    Some(card) => {
                        let res = self.aces[ai].add_card(card);
                        match res {
                            Err(e) => {
                                proof {
                                    assert(self@ =~~= pre);
                                }
                                Err(MoveMakingError::IllegalAcePileAdd(e))
                            },
                            Ok(()) => {
                                let _ = self.piles[pi].pop_tail_of_revealed();
                                self.moves = self.moves + 1;
                                proof {
                                    let t2 = TableView {
                                        piles: pre.piles.update(
                                            pi as int,
                                            pop_tail_view(pre.piles[pi as int]),
                                        ),
                                        aces: pre.aces.update(
                                            ai as int,
                                            pre.aces[ai as int].push(card),
                                        ),
                                        ..pre
                                    };
                                    assert(self@ =~~= with_moves(t2, (pre.moves + 1) as nat));
                                }
                                Ok(MoveOutcome::Continue)
                            },
                        }
                    },
                }
            },
            ParsedMove::MoveFromAceToPile { ace, pile } => {
                let pi = pile as usize;
                let ai = ace as usize;
                proof {
                    assert(pre.piles[pi as int] == self.piles@[pi as int]@);
                    assert(pre.aces[ai as int] == self.aces@[ai as int]@);
                    assert(pile_wf(pre.piles[pi as int]));
                }
                let top: Option<Card> = match self.aces[ai].top() {
                    Some(c) => Some(*c),
                    None => None,
                };
                match top {
                    None => Err(MoveMakingError::AcePileIsEmpty),
                    Some(card) => {
                        let res = self.piles[pi].add_card(card);
                        match res {
                            Err(e) => {
                                proof {
                                    assert(self@ =~~= pre);
                                }
                                Err(MoveMakingError::IllegalGamePileAdd(e))
                            },
                            Ok(()) => {
                                let _ = self.aces[ai].pop();
                                self.moves = self.moves + 1;
                                proof {
                                    let t2 = TableView {
                                        piles: pre.piles.update(
                                            pi as int,
                                            push_view(pre.piles[pi as int], card),
                                        ),
                                        aces: pre.aces.update(
                                            ai as int,
                                            pre.aces[ai as int].drop_last(),
                                        ),
                                        ..pre
                                    };
                                    assert(self@ =~~= with_moves(t2, (pre.moves + 1) as nat));
                                }
                                Ok(MoveOutcome::Continue)
                            },
                        }
                    },
                }
            },
            ParsedMove::Cycle => {
                proof {
                    broadcast use group_to_multiset_ensures;

                    assert(pre.stack.to_multiset().len() <= pre.cards_multiset().len());
                }
                #[verifier::loop_isolation(false)]
                while self.stack.len() > 0
                    invariant
                        self@.piles == pre.piles,
                        self@.aces == pre.aces,
                        self@.stack + self@.passed == pre.stack + pre.passed,
                        self@.stack.len() <= pre.stack.len(),
                        self@.moves == pre.moves + pre.stack.len() - self@.stack.len(),
                    decreases self@.stack.len(),
                {
                    let ghost mid = self@;
                    let c = self.stack.take_from_top().unwrap();
                    self.passed_stack.push_to_bottom(c);
                    self.moves = self.moves + 1;
                    proof {
                        assert(self@.stack + self@.passed =~= mid.stack + mid.passed);
                    }
                }
                if self.moves > 0 {
                    self.moves = self.moves - 1;
                }
                self.moves = self.moves + 1;
                proof {
                    assert(self@.passed =~= pre.stack + pre.passed);
                    assert(self@ =~~= cycle_step(pre));
                }
                Ok(MoveOutcome::Continue)
            },
        }
    }

    /// Apply the move a command line describes: the single text entry
    /// point. The line is read exactly as `spec_parse_move` says; a parse
    /// refusal comes back carrying the offending text; an accepted move is
    /// carried out as `table_step` describes. On any error the table is
    /// untouched, and no call creates or loses a card.
    pub fn make_move(&mut self, m: &str) -> (r: Result<MoveOutcome, MoveMakingError>)
        requires
            old(self)@.wf(),
            old(self).moves + 53 <= usize::MAX,
        ensures
            final(self)@.wf(),
            final(self)@.cards_multiset() == old(self)@.cards_multiset(),
            match spec_parse_move(m@) {
                Ok(pm) => match table_step(old(self)@, pm) {
                    Ok((t2, out)) => r == Ok::<MoveOutcome, MoveMakingError>(out)
                        && final(self)@ == t2,
                    Err(e) => r == Err::<MoveOutcome, MoveMakingError>(e)
                        && final(self)@ == old(self)@,
                },
                Err(k) => (match r {
                    Err(MoveMakingError::Parsing(pe)) => pe.kind == k && pe.input@ == m@,
                    _ => false,
                }) && final(self)@ == old(self)@,
            },
    {
        match parse_move(m) {
            Ok(pm) => self.apply_move(pm),
            Err(e) => Err(MoveMakingError::Parsing(e)),
        }
    }
}

impl Default for Table {
    /// A freshly dealt game.
    fn default() -> (t: Self)
        ensures
            t@.wf(),
            t@.moves == 0,
            t@.cards_multiset() == french_deck().to_multiset(),
    {
        Table::new()
    }
}

/// Onto an empty tableau column, a card may go exactly when it is a King.
pub proof fn lemma_legal_on_empty(added: Card)
    ensures
        spec_legal(added, None) <==> added.number == CardNum::Re,
{
}

/// Onto an occupied column, a card may go exactly when its long value is
/// one below the base card's and the two suits lie in different colour
/// groups.
pub proof fn lemma_legal_on_base(added: Card, base: Card)
    ensures
        spec_legal(added, Some(base)) <==> (card_value_fr(added) + 1 == card_value_fr(base)
            && is_red(added.suit) != is_red(base.suit)),
{
}

/// Two cards of the same suit never satisfy tableau legality, whatever
/// their ranks.
pub proof fn lemma_same_suit_never_legal(added: Card, base: Card)
    requires
        added.suit == base.suit,
    ensures
        !spec_legal(added, Some(base)),
{
}

/// Moving zero cards between tableau columns always fails with the
/// zero-amount error, for any pair of columns; `move_pile` then leaves the
/// table untouched.
pub proof fn lemma_move_zero_always_fails(t: TableView, from: int, to: int)
    requires
        0 <= from < 7,
        0 <= to < 7,
    ensures
        move_pile_spec(t, from, to, 0) == Err::<TableView, GamePileMovingError>(
            GamePileMovingError::AmountWasZero,
        ),
{
}

/// Moving more cards than the source column has revealed always fails with
/// the insufficient-revealed error; `move_pile` then leaves both columns
/// untouched.
pub proof fn lemma_move_too_many_fails(t: TableView, from: int, to: int, amount: int)
    requires
        0 <= from < 7,
        0 <= to < 7,
        amount >= 1,
        amount > t.piles[from].revealed,
    ensures
        move_pile_spec(t, from, to, amount) == Err::<TableView, GamePileMovingError>(
            GamePileMovingError::NotEnoughRevealedCards(amount as u8),
        ),
{
}

/// A foundation accepts exactly an Ace when it is empty, and exactly the
/// next rank of its own suit afterwards; `AcePile::add_card` leaves the
/// foundation untouched in every other case.
pub proof fn lemma_foundation_acceptance(top: Option<Card>, c: Card)
    ensures
        spec_ace_legal(top, c) <==> match top {
            None => c.number == CardNum::Numeric(1),
            Some(t) => t.suit == c.suit && card_value_fr(t) + 1 == card_value_fr(c),
        },
{
}

} // verus!
