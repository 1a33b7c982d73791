//! The board: four reserve slots, four foundation slots and eight tableau
//! columns, together with every legality predicate, mutation operation,
//! automatic-sweep step and move-capacity computation of the game.
//!
//! A board is abstracted by [`BoardState`], a ghost record of the three
//! zones; every contract speaks of that view. [`BoardState::wf`] is the
//! shape invariant (slot counts, card validity, foundation slots keyed by
//! suit), and [`BoardState::all_cards_present`] says that the zones together
//! hold the full 52-card deck, each card exactly once.

use vstd::prelude::*;

use rand::seq::SliceRandom;

use crate::card::{Card, Color, Face, Suit, ACE, KING, RESERVE_SLOTS, FOUNDATION_SLOTS,
    TABLEAU_SLOTS};
use crate::model::{opt_cards, slots_cards, run_cards, foundation_run, foundation_cards,
    columns_cards, full_deck, lemma_add_cancel, lemma_add_empty, lemma_insert_shift,
    lemma_slots_cards_update, lemma_foundation_cards_update, lemma_columns_cards_update,
    lemma_slots_cards_count_ge, lemma_foundation_cards_count_ge, lemma_columns_cards_count_ge,
    lemma_run_cards_count, lemma_full_deck_count, lemma_slots_cards_all_none,
    lemma_foundation_cards_all_none, lemma_columns_cards_all_empty};
use vstd::multiset::Multiset;

verus! {

/// The abstract state of a board: the contents of the three zones.
#[verifier::ext_equal]
pub ghost struct BoardState {
    pub reserve: Seq<Option<Card>>,
    pub foundation: Seq<Option<Card>>,
    pub tableau: Seq<Seq<Card>>,
}

#[derive(Clone, Debug)]
pub struct FreeCell {
    reserve: Vec<Option<Card>>,
    foundation: Vec<Option<Card>>,
    tableau: Vec<Vec<Card>>,
}

impl View for FreeCell {
    type V = BoardState;

    closed spec fn view(&self) -> BoardState {
        BoardState {
            reserve: self.reserve@,
            foundation: self.foundation@,
            tableau: Seq::new(self.tableau@.len(), |i: int| self.tableau@[i]@),
        }
    }
}

impl BoardState {
    /// The shape invariant: slot counts, valid face values everywhere, and
    /// each foundation slot holding only a card of its own suit.
    pub open spec fn wf(self) -> bool {
        &&& self.reserve.len() == RESERVE_SLOTS
        &&& self.foundation.len() == FOUNDATION_SLOTS
        &&& self.tableau.len() == TABLEAU_SLOTS
        &&& forall|i: int| 0 <= i < RESERVE_SLOTS && self.reserve[i] is Some
                ==> (#[trigger] self.reserve[i])->Some_0.valid()
        &&& forall|i: int| 0 <= i < FOUNDATION_SLOTS && self.foundation[i] is Some
                ==> (#[trigger] self.foundation[i])->Some_0.valid()
                    && self.foundation[i]->Some_0.suit.index_spec() == i
        &&& forall|i: int, j: int| 0 <= i < TABLEAU_SLOTS && 0 <= j < self.tableau[i].len()
                ==> (#[trigger] self.tableau[i][j]).valid()
    }

    /// The foundation slot of the given suit.
    pub open spec fn foundation_of(self, suit: Suit) -> Option<Card> {
        self.foundation[suit.index_spec()]
    }

    /// The face value on the given suit's foundation, or 0 when it is empty.
    pub open spec fn foundation_value(self, suit: Suit) -> int {
        match self.foundation_of(suit) {
            Some(c) => c.value.0 as int,
            None => 0,
        }
    }

    /// A card may be placed on a tableau column when the column is empty or
    /// the card stacks on the column's top card.
    pub open spec fn can_move_to_tableau_spec(self, card: Card, pos: int) -> bool {
        self.tableau[pos].len() == 0 || card.can_top_spec(self.tableau[pos].last())
    }

    /// A card may be placed on the foundation when it succeeds its suit's
    /// current top (an Ace when that foundation is empty).
    pub open spec fn can_move_to_foundation_spec(self, card: Card) -> bool {
        card.can_succeed_spec(self.foundation_of(card.suit))
    }

    /// The auto-sweep safety margin: a card is swept only when no card of
    /// the opposite color could still need it as a tableau stacking target.
    pub open spec fn should_move_to_foundation_spec(self, card: Card) -> bool {
        let min_black = spec_min(self.foundation_value(Suit::Club), self.foundation_value(Suit::Spade));
        let min_red = spec_min(self.foundation_value(Suit::Diamond), self.foundation_value(Suit::Heart));
        &&& self.can_move_to_foundation_spec(card)
        &&& if card.suit.color_spec() == Color::Black {
                card.value.0 <= spec_min(min_black + 3, min_red + 2)
            } else {
                card.value.0 <= spec_min(min_red + 3, min_black + 2)
            }
    }

    /// The combined height of the four foundations: how many cards they
    /// have swallowed so far.
    pub open spec fn foundation_total(self) -> int {
        self.foundation_value(Suit::Club) + self.foundation_value(Suit::Diamond)
            + self.foundation_value(Suit::Heart) + self.foundation_value(Suit::Spade)
    }

    /// Whether any reserve slot is vacant.
    pub open spec fn reserve_free_spec(self) -> bool {
        exists|i: int| 0 <= i < self.reserve.len() && self.reserve[i] is None
    }

    /// The game is won when every foundation holds a King.
    pub open spec fn game_over_spec(self) -> bool {
        forall|i: int| 0 <= i < self.foundation.len()
            ==> (#[trigger] self.foundation[i]) is Some
                && self.foundation[i]->Some_0.value.0 == KING
    }

    /// The board after placing a card on its suit's foundation.
    pub open spec fn place_on_foundation(self, card: Card) -> BoardState {
        BoardState {
            foundation: self.foundation.update(card.suit.index_spec(), Some(card)),
            ..self
        }
    }

    /// The board after appending a card to a tableau column.
    pub open spec fn place_on_tableau(self, card: Card, pos: int) -> BoardState {
        BoardState { tableau: self.tableau.update(pos, self.tableau[pos].push(card)), ..self }
    }

    /// The index of the lowest vacant reserve slot at or after `i`, or -1.
    pub open spec fn first_free_reserve_from(self, i: int) -> int
        decreases self.reserve.len() - i,
    {
        if i < 0 || i >= self.reserve.len() {
            -1
        } else if self.reserve[i] is None {
            i
        } else {
            self.first_free_reserve_from(i + 1)
        }
    }

    /// The board after filling the lowest vacant reserve slot with a card.
    pub open spec fn place_on_reserve(self, card: Card) -> BoardState {
        BoardState {
            reserve: self.reserve.update(self.first_free_reserve_from(0), Some(card)),
            ..self
        }
    }

    /// The board after emptying one reserve slot.
    pub open spec fn remove_from_reserve(self, pos: int) -> BoardState {
        BoardState { reserve: self.reserve.update(pos, None), ..self }
    }

    /// The board after removing the top card of a tableau column.
    pub open spec fn pop_from_tableau(self, pos: int) -> BoardState {
        BoardState { tableau: self.tableau.update(pos, self.tableau[pos].drop_last()), ..self }
    }

    /// The board after moving the top `n` cards of column `a`, in order,
    /// onto column `b`.
    pub open spec fn move_group(self, a: int, b: int, n: int) -> BoardState {
        let col_a = self.tableau[a];
        let moved = col_a.subrange(col_a.len() - n, col_a.len() as int);
        BoardState {
            tableau: self.tableau.update(a, col_a.subrange(0, col_a.len() - n)).update(
                b,
                self.tableau[b] + moved,
            ),
            ..self
        }
    }

    /// The length of the maximal movable group at the top of a column: the
    /// longest suffix in which each card stacks on the one below it.
    pub open spec fn group_size_spec(col: Seq<Card>) -> nat
        decreases col.len(),
    {
        if col.len() <= 1 {
            col.len()
        } else if col.last().can_top_spec(col[col.len() - 2]) {
            1 + Self::group_size_spec(col.drop_last())
        } else {
            1
        }
    }

    /// How many cards may move together from column `a` to column `b`: the
    /// movable group, capped by the supermove budget; each free reserve slot
    /// adds one and each empty column (other than `b` itself) doubles it.
    pub open spec fn move_capacity_spec(self, a: int, b: int) -> int {
        let freed = if self.tableau[b].len() == 0 {
            count_empty_columns(self.tableau) - 1
        } else {
            count_empty_columns(self.tableau)
        };
        spec_min(
            Self::group_size_spec(self.tableau[a]) as int,
            (count_free_reserve(self.reserve) + 1) * pow2(freed as nat),
        )
    }

    /// The reserve pass of one sweep step: walking slots `i` and up in
    /// order, each occupied slot whose card is safe goes to its foundation,
    /// while the budget lasts.
    pub open spec fn sweep_reserve_from(self, i: int, left: nat) -> (BoardState, nat)
        decreases self.reserve.len() - i,
    {
        if i < 0 || i >= self.reserve.len() {
            (self, left)
        } else if left > 0 && self.reserve[i] is Some && self.should_move_to_foundation_spec(
            self.reserve[i]->Some_0,
        ) {
            let c = self.reserve[i]->Some_0;
            self.remove_from_reserve(i).place_on_foundation(c).sweep_reserve_from(
                i + 1,
                (left - 1) as nat,
            )
        } else {
            self.sweep_reserve_from(i + 1, left)
        }
    }

    /// Which tableau columns hold a safe top card, judged once before the
    /// tableau pass begins.
    pub open spec fn sweep_candidates(self) -> Seq<bool> {
        Seq::new(
            self.tableau.len(),
            |i: int| self.tableau[i].len() > 0 && self.should_move_to_foundation_spec(
                self.tableau[i].last(),
            ),
        )
    }

    /// The tableau pass of one sweep step: walking columns `i` and up in
    /// order, each column marked as a candidate whose top is still safe
    /// sends it to its foundation, while the budget lasts.
    pub open spec fn sweep_tableau_from(self, elig: Seq<bool>, i: int, left: nat) -> (
        BoardState,
        nat,
    )
        decreases self.tableau.len() - i,
    {
        if i < 0 || i >= self.tableau.len() {
            (self, left)
        } else if left > 0 && elig[i] && self.tableau[i].len() > 0
            && self.should_move_to_foundation_spec(self.tableau[i].last()) {
            let c = self.tableau[i].last();
            self.pop_from_tableau(i).place_on_foundation(c).sweep_tableau_from(
                elig,
                i + 1,
                (left - 1) as nat,
            )
        } else {
            self.sweep_tableau_from(elig, i + 1, left)
        }
    }

    /// One sweep step with budget `n`: the reserve pass, then, if budget
    /// remains, the tableau pass over the candidates found after it; the
    /// flag reports whether anything moved.
    pub open spec fn sweep_spec(self, n: nat) -> (BoardState, bool) {
        let reserve_pass = self.sweep_reserve_from(0, n);
        let b1 = reserve_pass.0;
        let left1 = reserve_pass.1;
        if left1 != 0 {
            let tableau_pass = b1.sweep_tableau_from(b1.sweep_candidates(), 0, left1);
            (tableau_pass.0, tableau_pass.1 != n)
        } else {
            (b1, true)
        }
    }

    /// All cards the board holds, a foundation slot standing for its full
    /// run from the Ace up to the rank it shows.
    pub open spec fn cards(self) -> Multiset<Card> {
        slots_cards(self.reserve).add(foundation_cards(self.foundation)).add(
            columns_cards(self.tableau),
        )
    }

    /// The global invariant: the three zones together hold the full 52-card
    /// deck, each card exactly once.
    pub open spec fn all_cards_present(self) -> bool {
        self.cards() == full_deck()
    }

    /// The card sits in none of the three zones: not in a reserve slot, not
    /// already placed on its suit's foundation, and in no tableau column.
    pub open spec fn free_card(self, card: Card) -> bool {
        &&& forall|i: int| 0 <= i < self.reserve.len()
                ==> #[trigger] self.reserve[i] != Some(card)
        &&& forall|i: int| 0 <= i < self.foundation.len() && self.foundation[i] is Some
                ==> !card.is_lower_spec((#[trigger] self.foundation[i])->Some_0)
                    && self.foundation[i] != Some(card)
        &&& forall|i: int| 0 <= i < self.tableau.len()
                ==> !(#[trigger] self.tableau[i]).contains(card)
    }
}

pub open spec fn spec_min(a: int, b: int) -> int {
    if a <= b { a } else { b }
}

/// How many tableau columns are empty.
pub open spec fn count_empty_columns(cols: Seq<Seq<Card>>) -> int
    decreases cols.len(),
{
    if cols.len() == 0 {
        0
    } else {
        count_empty_columns(cols.drop_last()) + if cols.last().len() == 0 { 1int } else { 0 }
    }
}

/// How many reserve slots are vacant.
pub open spec fn count_free_reserve(res: Seq<Option<Card>>) -> int
    decreases res.len(),
{
    if res.len() == 0 {
        0
    } else {
        count_free_reserve(res.drop_last()) + if res.last() is None { 1int } else { 0 }
    }
}

pub open spec fn pow2(n: nat) -> int
    decreases n,
{
    if n == 0 {
        1
    } else {
        2 * pow2((n - 1) as nat)
    }
}

pub proof fn lemma_count_empty_columns_bounds(cols: Seq<Seq<Card>>)
    ensures
        0 <= count_empty_columns(cols) <= cols.len(),
    decreases cols.len(),
{
    if cols.len() > 0 {
        lemma_count_empty_columns_bounds(cols.drop_last());
    }
}

pub proof fn lemma_count_free_reserve_bounds(res: Seq<Option<Card>>)
    ensures
        0 <= count_free_reserve(res) <= res.len(),
    decreases res.len(),
{
    if res.len() > 0 {
        lemma_count_free_reserve_bounds(res.drop_last());
    }
}

pub proof fn lemma_group_size_le_len(col: Seq<Card>)
    ensures
        BoardState::group_size_spec(col) <= col.len(),
    decreases col.len(),
{
    if col.len() > 1 {
        lemma_group_size_le_len(col.drop_last());
    }
}

/// The movable group: every card in the top `group_size` run stacks on the
/// card below it, and the run cannot be extended downward.
pub proof fn lemma_group_size_characterization(col: Seq<Card>, n: int)
    requires
        1 <= n <= col.len(),
        forall|k: int| col.len() - n <= k < col.len() - 1
            ==> (#[trigger] col[k + 1]).can_top_spec(col[k]),
        n == col.len() || !col[col.len() - n].can_top_spec(col[col.len() - n - 1]),
    ensures
        BoardState::group_size_spec(col) == n,
    decreases col.len(),
{
    if col.len() == 1 {
    } else if col.last().can_top_spec(col[col.len() - 2]) {
        assert(n >= 2) by {
            if n == 1 {
                assert(!col[col.len() - 1].can_top_spec(col[col.len() - 2]));
            }
        }
        let d = col.drop_last();
        assert forall|k: int| d.len() - (n - 1) <= k < d.len() - 1
            implies (#[trigger] d[k + 1]).can_top_spec(d[k]) by {
            assert(d[k + 1] == col[k + 1]);
            assert(d[k] == col[k]);
        }
        if n - 1 < d.len() {
            assert(d[d.len() - (n - 1)] == col[col.len() - n]);
            assert(d[d.len() - (n - 1) - 1] == col[col.len() - n - 1]);
        }
        lemma_group_size_characterization(d, n - 1);
    } else {
        assert(n == 1) by {
            if n >= 2 {
                let k = col.len() - 2;
                assert(col.len() - n <= k < col.len() - 1);
                assert(col[k + 1].can_top_spec(col[k]));
            }
        }
    }
}

impl FreeCell {
    /// An empty board: no cards anywhere. Dealing fills the tableau.
    fn empty() -> (r: FreeCell)
        ensures
            r@.reserve =~= seq![None::<Card>, None, None, None],
            r@.foundation =~= seq![None::<Card>, None, None, None],
            r@.tableau.len() == TABLEAU_SLOTS,
            forall|i: int| 0 <= i < TABLEAU_SLOTS ==> (#[trigger] r@.tableau[i]).len() == 0,
    {
        let mut reserve: Vec<Option<Card>> = Vec::new();
        let mut foundation: Vec<Option<Card>> = Vec::new();
        let mut tableau: Vec<Vec<Card>> = Vec::new();
        let mut i: usize = 0;
        while i < RESERVE_SLOTS
            invariant
                i <= RESERVE_SLOTS,
                reserve@.len() == i,
                forall|j: int| 0 <= j < i ==> reserve@[j] is None,
            decreases RESERVE_SLOTS - i,
        {
            reserve.push(None);
            i += 1;
        }
        let mut i: usize = 0;
        while i < FOUNDATION_SLOTS
            invariant
                i <= FOUNDATION_SLOTS,
                foundation@.len() == i,
                forall|j: int| 0 <= j < i ==> foundation@[j] is None,
            decreases FOUNDATION_SLOTS - i,
        {
            foundation.push(None);
            i += 1;
        }
        let mut i: usize = 0;
        while i < TABLEAU_SLOTS
            invariant
                i <= TABLEAU_SLOTS,
                tableau@.len() == i,
                forall|j: int| 0 <= j < i ==> (#[trigger] tableau@[j])@.len() == 0,
            decreases TABLEAU_SLOTS - i,
        {
            tableau.push(Vec::new());
            i += 1;
        }
        let r = FreeCell { reserve, foundation, tableau };
        proof {
            assert(r@.reserve =~= seq![None::<Card>, None, None, None]);
            assert(r@.foundation =~= seq![None::<Card>, None, None, None]);
        }
        r
    }

    /// A new board: 52 shuffled cards dealt round-robin into the eight
    /// tableau columns, reserve and foundations vacant.
    pub fn new() -> (r: FreeCell)
        ensures
            r@.wf(),
            r@.all_cards_present(),
            forall|i: int| 0 <= i < RESERVE_SLOTS ==> (#[trigger] r@.reserve[i]) is None,
            forall|i: int| 0 <= i < FOUNDATION_SLOTS ==> (#[trigger] r@.foundation[i]) is None,
            forall|j: int| 0 <= j < TABLEAU_SLOTS ==> 52 <= 8 * (#[trigger] r@.tableau[j]).len()
                + j < 60,
    {
        let mut deck = make_deck();
        shuffle_deck(&mut deck);
        FreeCell::from_deck(deck)
    }

    /// Deals a given full deck round-robin into the tableau: column `j`
    /// takes every eighth card starting at the `j`th.
    pub fn from_deck(deck: Vec<Card>) -> (r: FreeCell)
        requires
            deck@.to_multiset() == full_deck(),
            deck@.len() == 52,
        ensures
            r@.wf(),
            r@.all_cards_present(),
            forall|i: int| 0 <= i < RESERVE_SLOTS ==> (#[trigger] r@.reserve[i]) is None,
            forall|i: int| 0 <= i < FOUNDATION_SLOTS ==> (#[trigger] r@.foundation[i]) is None,
            forall|j: int| 0 <= j < TABLEAU_SLOTS ==> 52 <= 8 * (#[trigger] r@.tableau[j]).len()
                + j < 60,
            forall|j: int, k: int| 0 <= j < TABLEAU_SLOTS && 0 <= k < r@.tableau[j].len()
                ==> (#[trigger] r@.tableau[j][k]) == deck@[k * 8 + j],
    {
        let mut fc = FreeCell::empty();
        proof {
            lemma_slots_cards_all_none(fc@.reserve);
            lemma_foundation_cards_all_none(fc@.foundation);
            lemma_columns_cards_all_empty(fc@.tableau);
            lemma_add_empty(Multiset::<Card>::empty());
            assert(fc@.cards() == Multiset::<Card>::empty());
            assert(deck@.subrange(0, 0).to_multiset() =~= Multiset::<Card>::empty()) by {
                broadcast use vstd::seq_lib::group_to_multiset_ensures;
                broadcast use vstd::multiset::group_multiset_axioms;

                assert(deck@.subrange(0, 0).to_multiset().len() == 0);
            }
        }
        let mut i: usize = 0;
        while i < 52
            invariant
                i <= 52,
                deck@.len() == 52,
                deck@.to_multiset() == full_deck(),
                fc@.reserve.len() == RESERVE_SLOTS,
                fc@.foundation.len() == FOUNDATION_SLOTS,
                fc@.tableau.len() == TABLEAU_SLOTS,
                forall|j: int| 0 <= j < RESERVE_SLOTS ==> (#[trigger] fc@.reserve[j]) is None,
                forall|j: int| 0 <= j < FOUNDATION_SLOTS
                    ==> (#[trigger] fc@.foundation[j]) is None,
                forall|j: int| 0 <= j < TABLEAU_SLOTS ==> i <= 8 * (#[trigger] fc@.tableau[
                    j
                ]).len() + j < i + 8,
                forall|j: int, k: int| 0 <= j < TABLEAU_SLOTS && 0 <= k < fc@.tableau[j].len()
                    ==> (#[trigger] fc@.tableau[j][k]) == deck@[k * 8 + j],
                fc@.cards() == deck@.subrange(0, i as int).to_multiset(),
            decreases 52 - i,
        {
            let c = deck[i];
            let pos = i % 8;
            let ghost pre = fc@;
            let ghost col = fc@.tableau[pos as int];
            proof {
                assert(fc.tableau@[pos as int]@ == fc@.tableau[pos as int]);
            }
            fc.tableau[pos].push(c);
            proof {
                assert(fc@ =~~= pre.place_on_tableau(c, pos as int));
                lemma_place_on_tableau_cards(pre, c, pos as int);
                broadcast use vstd::seq_lib::group_to_multiset_ensures;

                assert(deck@.subrange(0, i as int + 1) =~= deck@.subrange(0, i as int).push(
                    deck@[i as int],
                ));
                assert(fc@.cards() == deck@.subrange(0, i as int + 1).to_multiset());
                let le = col.len() as int;
                assert(8 * le + pos == i) by (nonlinear_arith)
                    requires
                        0 <= i,
                        pos == i % 8,
                        i <= 8 * le + pos < i + 8,
                ;
                assert forall|j: int| 0 <= j < TABLEAU_SLOTS implies i + 1 <= 8
                    * (#[trigger] fc@.tableau[j]).len() + j < i + 9 by {
                    if j == pos as int {
                        assert(fc@.tableau[j].len() == le + 1);
                    } else {
                        assert(fc@.tableau[j] == pre.tableau[j]);
                        let lj = pre.tableau[j].len() as int;
                        assert(8 * lj + j != i) by (nonlinear_arith)
                            requires
                                0 <= j < 8,
                                0 <= lj,
                                0 <= i,
                                j != i % 8,
                        ;
                    }
                }
                assert forall|j: int, k: int|
                    0 <= j < TABLEAU_SLOTS && 0 <= k < fc@.tableau[j].len()
                implies (#[trigger] fc@.tableau[j][k]) == deck@[k * 8 + j] by {
                    if j == pos as int && k == le {
                        assert(fc@.tableau[j][k] == c);
                        assert(k * 8 + j == i);
                    } else if j == pos as int {
                        assert(fc@.tableau[j][k] == pre.tableau[j][k]);
                    } else {
                        assert(fc@.tableau[j] == pre.tableau[j]);
                    }
                }
            }
            i += 1;
        }
        proof {
            assert(deck@.subrange(0, 52) =~= deck@);
            assert(fc@.all_cards_present());
            assert forall|j: int, k: int|
                0 <= j < TABLEAU_SLOTS && 0 <= k < fc@.tableau[j].len()
            implies (#[trigger] fc@.tableau[j][k]).valid() by {
                broadcast use vstd::seq_lib::group_to_multiset_ensures;

                assert(fc@.tableau[j][k] == deck@[k * 8 + j]);
                assert(deck@.contains(deck@[k * 8 + j]));
                assert(deck@.to_multiset().count(deck@[k * 8 + j]) > 0);
                lemma_full_deck_count(deck@[k * 8 + j]);
            }
        }
        fc
    }

    /// A structurally equal copy of this board, element for element.
    pub fn snapshot(&self) -> (r: FreeCell)
        ensures
            r@ == self@,
    {
        let mut reserve: Vec<Option<Card>> = Vec::new();
        let mut i: usize = 0;
        while i < self.reserve.len()
            invariant
                i <= self@.reserve.len(),
                reserve@.len() == i,
                forall|j: int| 0 <= j < i ==> reserve@[j] == self@.reserve[j],
            decreases self@.reserve.len() - i,
        {
            reserve.push(self.reserve[i]);
            i += 1;
        }
        let mut foundation: Vec<Option<Card>> = Vec::new();
        let mut i: usize = 0;
        while i < self.foundation.len()
            invariant
                i <= self@.foundation.len(),
                foundation@.len() == i,
                forall|j: int| 0 <= j < i ==> foundation@[j] == self@.foundation[j],
            decreases self@.foundation.len() - i,
        {
            foundation.push(self.foundation[i]);
            i += 1;
        }
        let mut tableau: Vec<Vec<Card>> = Vec::new();
        let mut i: usize = 0;
        while i < self.tableau.len()
            invariant
                i <= self@.tableau.len(),
                tableau@.len() == i,
                forall|j: int| 0 <= j < i ==> (#[trigger] tableau@[j])@ == self@.tableau[j],
            decreases self@.tableau.len() - i,
        {
            let src = &self.tableau[i];
            let mut col: Vec<Card> = Vec::new();
            let mut k: usize = 0;
            while k < src.len()
                invariant
                    k <= src@.len(),
                    col@.len() == k,
                    forall|m: int| 0 <= m < k ==> col@[m] == src@[m],
                decreases src@.len() - k,
            {
                col.push(src[k]);
                k += 1;
            }
            proof {
                assert(col@ =~= src@);
            }
            tableau.push(col);
            i += 1;
        }
        let r = FreeCell { reserve, foundation, tableau };
        proof {
            assert(r@ =~~= self@);
        }
        r
    }

    pub fn can_move_to_tableau(&self, card: Card, pos: usize) -> (r: bool)
        requires
            pos < self@.tableau.len(),
        ensures
            r == self@.can_move_to_tableau_spec(card, pos as int),
    {
        let slot = &self.tableau[pos];
        match slot.as_slice().last() {
            Some(top) => card.can_top(*top),
            None => true,
        }
    }

    pub fn can_move_to_foundation(&self, card: Card) -> (r: bool)
        requires
            self@.foundation.len() == FOUNDATION_SLOTS,
        ensures
            r == self@.can_move_to_foundation_spec(card),
    {
        let slot = self.foundation(card.suit);
        card.can_succeed(slot)
    }

    pub fn should_move_to_foundation(&self, card: Card) -> (r: bool)
        requires
            self@.wf(),
        ensures
            r == self@.should_move_to_foundation_spec(card),
    {
        if !self.can_move_to_foundation(card) {
            return false;
        }

        let club_v: u8 = match self.foundation(Suit::Club) { Some(c) => c.value.0, None => 0 };
        let spade_v: u8 = match self.foundation(Suit::Spade) { Some(c) => c.value.0, None => 0 };
        let diamond_v: u8 = match self.foundation(Suit::Diamond) { Some(c) => c.value.0, None => 0 };
        let heart_v: u8 = match self.foundation(Suit::Heart) { Some(c) => c.value.0, None => 0 };

        let min_black: u16 = if club_v <= spade_v { club_v as u16 } else { spade_v as u16 };
        let min_red: u16 = if diamond_v <= heart_v { diamond_v as u16 } else { heart_v as u16 };

        if self.card_color_is_black(card) {
            let bound = min2(min_black + 3, min_red + 2);
            (card.value.0 as u16) <= bound
        } else {
            let bound = min2(min_red + 3, min_black + 2);
            (card.value.0 as u16) <= bound
        }
    }

    fn card_color_is_black(&self, card: Card) -> (r: bool)
        ensures
            r == (card.suit.color_spec() == Color::Black),
    {
        card.suit.color() == Color::Black
    }

    /// Returns whether any reserve slots are vacant.
    pub fn reserve_free(&self) -> (r: bool)
        ensures
            r == self@.reserve_free_spec(),
    {
        let mut i: usize = 0;
        while i < self.reserve.len()
            invariant
                i <= self@.reserve.len(),
                forall|j: int| 0 <= j < i ==> self@.reserve[j] is Some,
            decreases self@.reserve.len() - i,
        {
            if self.reserve[i].is_none() {
                return true;
            }
            i += 1;
        }
        false
    }

    pub fn game_over(&self) -> (r: bool)
        ensures
            r == self@.game_over_spec(),
    {
        let mut i: usize = 0;
        while i < self.foundation.len()
            invariant
                i <= self@.foundation.len(),
                forall|j: int| 0 <= j < i
                    ==> (#[trigger] self@.foundation[j]) is Some
                        && self@.foundation[j]->Some_0.value.0 == KING,
            decreases self@.foundation.len() - i,
        {
            match self.foundation[i] {
                Some(c) => {
                    if c.value.0 != KING {
                        return false;
                    }
                }
                None => {
                    return false;
                }
            }
            i += 1;
        }
        true
    }

    pub fn reserve_slots(&self) -> (r: &[Option<Card>])
        ensures
            r@ == self@.reserve,
    {
        self.reserve.as_slice()
    }

    pub fn reserve(&self, pos: usize) -> (r: Option<Card>)
        requires
            pos < self@.reserve.len(),
        ensures
            r == self@.reserve[pos as int],
    {
        self.reserve[pos]
    }

    pub fn tableau_slots(&self) -> (r: &Vec<Vec<Card>>)
        ensures
            r@.len() == self@.tableau.len(),
            forall|i: int| 0 <= i < r@.len() ==> (#[trigger] r@[i])@ == self@.tableau[i],
    {
        &self.tableau
    }

    pub fn tableau(&self, pos: usize) -> (r: &[Card])
        requires
            pos < self@.tableau.len(),
        ensures
            r@ == self@.tableau[pos as int],
    {
        self.tableau[pos].as_slice()
    }

    /// A mutable borrow of one tableau column. What the caller writes
    /// through it becomes that column; the well-formedness and full-deck
    /// properties are then the caller's to re-establish.
    pub fn tableau_mut(&mut self, pos: usize) -> (r: &mut Vec<Card>)
        requires
            pos < old(self)@.tableau.len(),
        ensures
            r@ == old(self)@.tableau[pos as int],
            final(self)@.reserve == old(self)@.reserve,
            final(self)@.foundation == old(self)@.foundation,
            final(self)@.tableau == old(self)@.tableau.update(pos as int, final(r)@),
    {
        &mut self.tableau[pos]
    }

    pub fn foundation_slots(&self) -> (r: &[Option<Card>])
        ensures
            r@ == self@.foundation,
    {
        self.foundation.as_slice()
    }

    pub fn foundation(&self, suit: Suit) -> (r: Option<Card>)
        requires
            self@.foundation.len() == FOUNDATION_SLOTS,
        ensures
            r == self@.foundation_of(suit),
    {
        self.foundation[suit.as_index()]
    }

    pub fn add_to_foundation(&mut self, card: Card)
        requires
            old(self)@.wf(),
            card.valid(),
            old(self)@.free_card(card),
            old(self)@.can_move_to_foundation_spec(card),
        ensures
            final(self)@ == old(self)@.place_on_foundation(card),
            final(self)@.wf(),
    {
        let idx = card.suit.as_index();
        self.foundation[idx] = Some(card);
        proof {
            assert(self@ =~~= old(self)@.place_on_foundation(card));
        }
    }

    pub fn add_to_tableau(&mut self, card: Card, pos: usize)
        requires
            old(self)@.wf(),
            card.valid(),
            old(self)@.free_card(card),
            pos < TABLEAU_SLOTS,
            old(self)@.can_move_to_tableau_spec(card, pos as int),
        ensures
            final(self)@ == old(self)@.place_on_tableau(card, pos as int),
            final(self)@.wf(),
    {
        self.tableau[pos].push(card);
        proof {
            assert(self@ =~~= old(self)@.place_on_tableau(card, pos as int));
        }
    }

    pub fn add_to_reserve(&mut self, card: Card)
        requires
            old(self)@.wf(),
            card.valid(),
            old(self)@.free_card(card),
            old(self)@.reserve_free_spec(),
        ensures
            final(self)@ == old(self)@.place_on_reserve(card),
            final(self)@.wf(),
    {
        let mut i: usize = 0;
        while i < RESERVE_SLOTS
            invariant
                old(self)@.wf(),
                card.valid(),
                *self == *old(self),
                i <= RESERVE_SLOTS,
                forall|j: int| 0 <= j < i ==> (#[trigger] old(self)@.reserve[j]) is Some,
                old(self)@.reserve_free_spec(),
            decreases RESERVE_SLOTS - i,
        {
            if self.reserve[i].is_none() {
                proof {
                    lemma_first_free_skip(old(self)@, i as int);
                }
                self.reserve[i] = Some(card);
                proof {
                    assert(self@.reserve =~= old(self)@.reserve.update(i as int, Some(card)));
                    assert(self@ =~~= old(self)@.place_on_reserve(card));
                    lemma_wf_update_reserve(old(self)@, i as int, Some(card));
                }
                return;
            }
            i += 1;
        }
        proof {
            let w = choose|j: int| 0 <= j < old(self)@.reserve.len()
                && old(self)@.reserve[j] is None;
            assert(old(self)@.reserve[w] is Some);
            assert(false);
        }
    }

    /// Empties the given reserve slot and returns the card it held.
    pub fn remove_reserve(&mut self, pos: usize) -> (r: Card)
        requires
            old(self)@.wf(),
            pos < RESERVE_SLOTS,
            old(self)@.reserve[pos as int] is Some,
        ensures
            Some(r) == old(self)@.reserve[pos as int],
            final(self)@ == old(self)@.remove_from_reserve(pos as int),
            final(self)@.wf(),
    {
        let r = self.reserve[pos].unwrap();
        self.reserve[pos] = None;
        proof {
            assert(self@ =~~= old(self)@.remove_from_reserve(pos as int));
        }
        r
    }

    /// Removes and returns the top card of the given tableau column.
    pub fn pop_tableau(&mut self, pos: usize) -> (r: Card)
        requires
            old(self)@.wf(),
            pos < TABLEAU_SLOTS,
            old(self)@.tableau[pos as int].len() > 0,
        ensures
            r == old(self)@.tableau[pos as int].last(),
            final(self)@ == old(self)@.pop_from_tableau(pos as int),
            final(self)@.wf(),
    {
        let r = self.tableau[pos].pop().unwrap();
        proof {
            assert(self@ =~~= old(self)@.pop_from_tableau(pos as int));
        }
        r
    }

    /// Moves the top `n` cards of column `a`, preserving their order, onto
    /// column `b`.
    pub fn move_tableau_group(&mut self, a: usize, b: usize, n: usize)
        requires
            old(self)@.wf(),
            a != b,
            a < TABLEAU_SLOTS,
            b < TABLEAU_SLOTS,
            n >= 1,
            n <= old(self)@.move_capacity_spec(a as int, b as int),
        ensures
            final(self)@ == old(self)@.move_group(a as int, b as int, n as int),
            final(self)@.wf(),
    {
        proof {
            lemma_group_size_le_len(old(self)@.tableau[a as int]);
        }
        let len_a = self.tableau[a].len();
        let start = len_a - n;
        let mut i = start;
        while i < len_a
            invariant
                old(self)@.wf(),
                a != b,
                a < TABLEAU_SLOTS,
                b < TABLEAU_SLOTS,
                start <= i <= len_a,
                len_a == old(self)@.tableau[a as int].len(),
                self@.tableau.len() == TABLEAU_SLOTS,
                self@.tableau[a as int] == old(self)@.tableau[a as int],
                self@.tableau =~= old(self)@.tableau.update(
                    b as int,
                    old(self)@.tableau[b as int]
                        + old(self)@.tableau[a as int].subrange(start as int, i as int),
                ),
                self@.reserve == old(self)@.reserve,
                self@.foundation == old(self)@.foundation,
            decreases len_a - i,
        {
            proof {
                assert(self.tableau@.len() == self@.tableau.len());
                assert(self.tableau@[a as int]@ == self@.tableau[a as int]);
                assert(self.tableau@[b as int]@ == self@.tableau[b as int]);
            }
            let ghost pre = self@.tableau;
            let c = self.tableau[a][i];
            self.tableau[b].push(c);
            proof {
                assert(self@.tableau =~= pre.update(b as int, pre[b as int].push(c)));
                assert(pre[b as int].push(c) =~= old(self)@.tableau[b as int]
                    + old(self)@.tableau[a as int].subrange(start as int, i as int + 1));
                assert(self@.tableau =~= old(self)@.tableau.update(
                    b as int,
                    old(self)@.tableau[b as int]
                        + old(self)@.tableau[a as int].subrange(start as int, i as int + 1),
                ));
            }
            i += 1;
        }
        let ghost mid = self@.tableau;
        proof {
            assert(self.tableau@[a as int]@ == self@.tableau[a as int]);
        }
        self.tableau[a].truncate(start);
        proof {
            assert(self@.tableau =~= mid.update(
                a as int,
                mid[a as int].subrange(0, start as int),
            ));
            assert(self@ =~~= old(self)@.move_group(a as int, b as int, n as int));
        }
    }

    /// Automatically moves to foundation up to `n` safe cards, reserve
    /// slots first and then tableau tops, left to right.
    /// Returns whether any cards were moved.
    pub fn sweep_step(&mut self, n: u32) -> (moved: bool)
        requires
            old(self)@.wf(),
            old(self)@.all_cards_present(),
            n >= 1,
        ensures
            final(self)@ == old(self)@.sweep_spec(n as nat).0,
            moved == old(self)@.sweep_spec(n as nat).1,
            final(self)@.wf(),
            final(self)@.all_cards_present(),
    {
        let mut left: u32 = n;
        let mut i: usize = 0;
        while i < RESERVE_SLOTS
            invariant
                i <= RESERVE_SLOTS,
                self@.wf(),
                self@.all_cards_present(),
                old(self)@.sweep_reserve_from(0, n as nat) == self@.sweep_reserve_from(
                    i as int,
                    left as nat,
                ),
            decreases RESERVE_SLOTS - i,
        {
            let ghost pre = self@;
            if left > 0 {
                match self.reserve(i) {
                    Some(c) => {
                        if self.should_move_to_foundation(c) {
                            self.remove_reserve(i);
                            proof {
                                broadcast use vstd::multiset::group_multiset_axioms;
                                broadcast use vstd::multiset::group_multiset_properties;

                                lemma_remove_from_reserve_cards(pre, i as int);
                                lemma_full_deck_count(c);
                                assert(self@.cards().insert(c).count(c) == self@.cards().count(
                                    c,
                                ) + 1);
                                assert(self@.cards().count(c) == 0);
                                lemma_missing_card_is_free(self@, c);
                            }
                            self.add_to_foundation(c);
                            proof {
                                lemma_place_on_foundation_cards(
                                    pre.remove_from_reserve(i as int),
                                    c,
                                );
                                assert(self@.cards() == pre.cards());
                            }
                            left -= 1;
                        }
                    }
                    None => {}
                }
            }
            i += 1;
        }
        let ghost b1 = self@;
        let ghost left1 = left;
        proof {
            assert(old(self)@.sweep_reserve_from(0, n as nat) == (b1, left1 as nat));
        }
        if left == 0 {
            return true;
        }
        let mut elig: Vec<bool> = Vec::new();
        let mut j: usize = 0;
        while j < TABLEAU_SLOTS
            invariant
                j <= TABLEAU_SLOTS,
                self@ == b1,
                self@.wf(),
                elig@.len() == j,
                forall|k: int| 0 <= k < j ==> elig@[k] == b1.sweep_candidates()[k],
            decreases TABLEAU_SLOTS - j,
        {
            let e = if self.tableau[j].is_empty() {
                false
            } else {
                proof {
                    assert(self.tableau@[j as int]@ == self@.tableau[j as int]);
                }
                let idx = self.tableau[j].len() - 1;
                let top = self.tableau[j][idx];
                self.should_move_to_foundation(top)
            };
            elig.push(e);
            j += 1;
        }
        proof {
            assert(elig@ =~= b1.sweep_candidates());
        }
        let mut i: usize = 0;
        while i < TABLEAU_SLOTS
            invariant
                i <= TABLEAU_SLOTS,
                self@.wf(),
                self@.all_cards_present(),
                elig@.len() == TABLEAU_SLOTS,
                elig@ == b1.sweep_candidates(),
                b1.sweep_tableau_from(elig@, 0, left1 as nat) == self@.sweep_tableau_from(
                    elig@,
                    i as int,
                    left as nat,
                ),
            decreases TABLEAU_SLOTS - i,
        {
            let ghost pre = self@;
            if left > 0 && elig[i] && !self.tableau[i].is_empty() {
                proof {
                    assert(self.tableau@[i as int]@ == self@.tableau[i as int]);
                }
                let idx = self.tableau[i].len() - 1;
                let top = self.tableau[i][idx];
                if self.should_move_to_foundation(top) {
                    self.pop_tableau(i);
                    proof {
                        broadcast use vstd::multiset::group_multiset_axioms;
                        broadcast use vstd::multiset::group_multiset_properties;

                        lemma_pop_from_tableau_cards(pre, i as int);
                        lemma_full_deck_count(top);
                        assert(self@.cards().insert(top).count(top) == self@.cards().count(top)
                            + 1);
                        assert(self@.cards().count(top) == 0);
                        lemma_missing_card_is_free(self@, top);
                    }
                    self.add_to_foundation(top);
                    proof {
                        lemma_place_on_foundation_cards(pre.pop_from_tableau(i as int), top);
                        assert(self@.cards() == pre.cards());
                    }
                    left -= 1;
                }
            }
            i += 1;
        }
        proof {
            assert(b1.sweep_tableau_from(elig@, 0, left1 as nat) == (self@, left as nat));
        }
        left != n
    }

    /// The length of the movable group at the top of the given column.
    pub fn group_size(&self, pos: usize) -> (r: usize)
        requires
            pos < self@.tableau.len(),
        ensures
            r == BoardState::group_size_spec(self@.tableau[pos as int]),
    {
        let slot = &self.tableau[pos];
        let len = slot.len();
        if len == 0 {
            return 0;
        }

        let ghost col = self@.tableau[pos as int];
        let mut n: usize = 1;
        let mut stop = false;
        while !stop && n < len
            invariant
                1 <= n <= len,
                len == col.len(),
                col == slot@,
                col == self@.tableau[pos as int],
                forall|k: int| len - n <= k < len - 1
                    ==> (#[trigger] col[k + 1]).can_top_spec(col[k]),
                stop ==> n < len && !col[len - n].can_top_spec(col[len - n - 1]),
            decreases len - n + (if stop { 0int } else { 1int }),
        {
            let upper = slot[len - n];
            let lower = slot[len - n - 1];
            if upper.can_top(lower) {
                n += 1;
            } else {
                stop = true;
            }
        }
        proof {
            lemma_group_size_characterization(col, n as int);
        }
        n
    }

    /// The supermove capacity from column `a` to column `b`.
    pub fn move_capacity(&self, a: usize, b: usize) -> (r: usize)
        requires
            self@.wf(),
            a != b,
            a < TABLEAU_SLOTS,
            b < TABLEAU_SLOTS,
            self@.tableau[a as int].len() > 0,
        ensures
            r == self@.move_capacity_spec(a as int, b as int),
    {
        let mut n_empty: usize = 0;
        let mut i: usize = 0;
        while i < TABLEAU_SLOTS
            invariant
                self@.wf(),
                i <= TABLEAU_SLOTS,
                n_empty == count_empty_columns(self@.tableau.subrange(0, i as int)),
                n_empty <= i,
            decreases TABLEAU_SLOTS - i,
        {
            proof {
                assert(self@.tableau.subrange(0, i as int + 1).drop_last()
                    =~= self@.tableau.subrange(0, i as int));
            }
            if self.tableau[i].is_empty() {
                n_empty += 1;
            }
            i += 1;
        }
        proof {
            assert(self@.tableau.subrange(0, TABLEAU_SLOTS as int) =~= self@.tableau);
        }

        let b_empty = self.tableau[b].is_empty();
        proof {
            assert(self.tableau@[b as int]@ == self@.tableau[b as int]);
            if b_empty {
                lemma_count_empty_columns_pos(self@.tableau, b as int);
            }
        }
        let freed = if b_empty { n_empty - 1 } else { n_empty };

        let mut n_reserve: usize = 0;
        let mut i: usize = 0;
        while i < RESERVE_SLOTS
            invariant
                self@.wf(),
                i <= RESERVE_SLOTS,
                n_reserve == count_free_reserve(self@.reserve.subrange(0, i as int)),
                n_reserve <= i,
            decreases RESERVE_SLOTS - i,
        {
            proof {
                assert(self@.reserve.subrange(0, i as int + 1).drop_last()
                    =~= self@.reserve.subrange(0, i as int));
            }
            if self.reserve[i].is_none() {
                n_reserve += 1;
            }
            i += 1;
        }
        proof {
            assert(self@.reserve.subrange(0, RESERVE_SLOTS as int) =~= self@.reserve);
        }

        let p = pow2_exec(freed);
        proof {
            lemma_pow2_table();
            lemma_pow2_monotone(freed as nat, 8);
            lemma_pow2_pos(freed as nat);
            assert((n_reserve + 1) * p <= 5 * 256) by (nonlinear_arith)
                requires
                    n_reserve + 1 <= 5,
                    0 <= p <= 256,
            ;
        }
        let budget = (n_reserve + 1) * p;
        let size = self.group_size(a);
        if size <= budget {
            size
        } else {
            budget
        }
    }
}

/// `b` empty means at least one column is empty, so the subtraction below
/// cannot underflow.
proof fn lemma_count_empty_columns_pos(cols: Seq<Seq<Card>>, b: int)
    requires
        0 <= b < cols.len(),
        cols[b].len() == 0,
    ensures
        count_empty_columns(cols) >= 1,
    decreases cols.len(),
{
    if b == cols.len() - 1 {
        lemma_count_empty_columns_bounds(cols.drop_last());
    } else {
        lemma_count_empty_columns_pos(cols.drop_last(), b);
    }
}

/// Replacing one reserve slot with a vacancy or a valid card keeps the
/// board well-formed.
proof fn lemma_wf_update_reserve(s: BoardState, i: int, v: Option<Card>)
    requires
        s.wf(),
        0 <= i < s.reserve.len(),
        v is Some ==> v->Some_0.valid(),
    ensures
        (BoardState { reserve: s.reserve.update(i, v), ..s }).wf(),
{
    let t = BoardState { reserve: s.reserve.update(i, v), ..s };
    assert forall|j: int| 0 <= j < RESERVE_SLOTS && t.reserve[j] is Some
        implies (#[trigger] t.reserve[j])->Some_0.valid() by {
        if j != i {
            assert(t.reserve[j] == s.reserve[j]);
        }
    }
}

/// When every reserve slot below `i` is occupied, the search for the lowest
/// vacant slot may as well start at `i`.
proof fn lemma_first_free_skip(s: BoardState, i: int)
    requires
        0 <= i <= s.reserve.len(),
        forall|j: int| 0 <= j < i ==> (#[trigger] s.reserve[j]) is Some,
    ensures
        s.first_free_reserve_from(0) == s.first_free_reserve_from(i),
    decreases i,
{
    if i > 0 {
        lemma_first_free_skip(s, i - 1);
    }
}

fn pow2_exec(n: usize) -> (r: usize)
    requires
        n <= 8,
    ensures
        r == pow2(n as nat),
{
    proof {
        lemma_pow2_table();
    }
    let mut r: usize = 1;
    let mut i: usize = 0;
    while i < n
        invariant
            i <= n <= 8,
            r == pow2(i as nat),
        decreases n - i,
    {
        proof {
            lemma_pow2_table();
            lemma_pow2_monotone(i as nat, 7);
        }
        r = r * 2;
        i += 1;
    }
    r
}

proof fn lemma_pow2_table()
    ensures
        pow2(0) == 1,
        pow2(1) == 2,
        pow2(2) == 4,
        pow2(3) == 8,
        pow2(4) == 16,
        pow2(5) == 32,
        pow2(6) == 64,
        pow2(7) == 128,
        pow2(8) == 256,
{
    assert(pow2(0) == 1);
    assert(pow2(1) == 2);
    assert(pow2(2) == 4);
    assert(pow2(3) == 8);
    assert(pow2(4) == 16);
    assert(pow2(5) == 32);
    assert(pow2(6) == 64);
    assert(pow2(7) == 128);
    assert(pow2(8) == 256);
}

proof fn lemma_pow2_monotone(m: nat, n: nat)
    requires
        m <= n,
    ensures
        pow2(m) <= pow2(n),
    decreases n,
{
    if m < n {
        lemma_pow2_monotone(m, (n - 1) as nat);
        assert(pow2(((n - 1) as nat)) >= 1) by {
            lemma_pow2_pos((n - 1) as nat);
        }
    }
}

proof fn lemma_pow2_pos(n: nat)
    ensures
        pow2(n) >= 1,
    decreases n,
{
    if n > 0 {
        lemma_pow2_pos((n - 1) as nat);
    }
}

/// Placing a legal card on its foundation adds exactly that card to the
/// board's holdings.
pub proof fn lemma_place_on_foundation_cards(s: BoardState, card: Card)
    requires
        s.wf(),
        card.valid(),
        s.can_move_to_foundation_spec(card),
    ensures
        s.place_on_foundation(card).cards() == s.cards().insert(card),
{
    broadcast use vstd::multiset::group_multiset_axioms;
    broadcast use vstd::multiset::group_multiset_properties;

    let i = card.suit.index_spec();
    let old_slot = s.foundation[i];
    let f2 = s.foundation.update(i, Some(card));
    lemma_foundation_cards_update(s.foundation, i, Some(card));
    match old_slot {
        Some(c) => {
            assert(c.suit.index_spec() == i);
            assert(c.suit == card.suit);
            assert(card.value.0 == c.value.0 + 1);
            assert(run_cards(card.suit, card.value.0 as nat) == run_cards(
                card.suit,
                (card.value.0 - 1) as nat,
            ).insert(Card { suit: card.suit, value: Face(card.value.0) }));
            assert(foundation_run(Some(card)) == foundation_run(old_slot).insert(card));
        }
        None => {
            assert(card.value.0 == 1);
            assert(run_cards(card.suit, 1) == run_cards(card.suit, 0).insert(
                Card { suit: card.suit, value: Face(1) },
            ));
            assert(run_cards(card.suit, 0) == Multiset::<Card>::empty());
            assert(foundation_run(Some(card)) == foundation_run(old_slot).insert(card));
        }
    }
    lemma_insert_shift(foundation_cards(s.foundation), foundation_run(old_slot), card);
    lemma_add_cancel(
        foundation_cards(f2),
        foundation_cards(s.foundation).insert(card),
        foundation_run(old_slot),
    );
    lemma_insert_shift(slots_cards(s.reserve), foundation_cards(s.foundation), card);
    lemma_insert_shift(
        slots_cards(s.reserve).add(foundation_cards(s.foundation)),
        columns_cards(s.tableau),
        card,
    );
}

/// Appending a card to a tableau column adds exactly that card to the
/// board's holdings.
pub proof fn lemma_place_on_tableau_cards(s: BoardState, card: Card, pos: int)
    requires
        0 <= pos < s.tableau.len(),
    ensures
        s.place_on_tableau(card, pos).cards() == s.cards().insert(card),
{
    broadcast use vstd::multiset::group_multiset_axioms;
    broadcast use vstd::multiset::group_multiset_properties;
    broadcast use vstd::seq_lib::group_to_multiset_ensures;

    let col = s.tableau[pos];
    lemma_columns_cards_update(s.tableau, pos, col.push(card));
    assert(col.push(card).to_multiset() == col.to_multiset().insert(card));
    lemma_insert_shift(columns_cards(s.tableau), col.to_multiset(), card);
    lemma_add_cancel(
        columns_cards(s.tableau.update(pos, col.push(card))),
        columns_cards(s.tableau).insert(card),
        col.to_multiset(),
    );
    lemma_insert_shift(
        slots_cards(s.reserve).add(foundation_cards(s.foundation)),
        columns_cards(s.tableau),
        card,
    );
}

/// The lowest vacant reserve slot: where the search lands, and what it
/// skipped.
pub proof fn lemma_first_free_props(s: BoardState, i: int)
    requires
        0 <= i <= s.reserve.len(),
    ensures
        s.first_free_reserve_from(i) == -1 ==> (forall|j: int|
            i <= j < s.reserve.len() ==> (#[trigger] s.reserve[j]) is Some),
        s.first_free_reserve_from(i) != -1 ==> i <= s.first_free_reserve_from(i)
            < s.reserve.len() && s.reserve[s.first_free_reserve_from(i)] is None,
    decreases s.reserve.len() - i,
{
    if i < s.reserve.len() && !(s.reserve[i] is None) {
        lemma_first_free_props(s, i + 1);
    }
}

/// Filling the lowest vacant reserve slot adds exactly that card to the
/// board's holdings.
pub proof fn lemma_place_on_reserve_cards(s: BoardState, card: Card)
    requires
        s.reserve_free_spec(),
    ensures
        s.place_on_reserve(card).cards() == s.cards().insert(card),
{
    broadcast use vstd::multiset::group_multiset_axioms;
    broadcast use vstd::multiset::group_multiset_properties;

    lemma_first_free_props(s, 0);
    let i = s.first_free_reserve_from(0);
    assert(i != -1) by {
        if i == -1 {
            let w = choose|j: int| 0 <= j < s.reserve.len() && s.reserve[j] is None;
            assert(s.reserve[w] is Some);
        }
    }
    let r2 = s.reserve.update(i, Some(card));
    lemma_slots_cards_update(s.reserve, i, Some(card));
    assert(opt_cards(s.reserve[i]) == Multiset::<Card>::empty());
    lemma_add_empty(slots_cards(r2));
    lemma_insert_shift(slots_cards(s.reserve), Multiset::<Card>::empty(), card);
    assert(opt_cards(Some(card)) == Multiset::<Card>::empty().insert(card));
    lemma_add_empty(slots_cards(s.reserve));
    assert(slots_cards(r2) == slots_cards(s.reserve).insert(card));
    lemma_insert_shift(slots_cards(s.reserve), foundation_cards(s.foundation), card);
    lemma_insert_shift(
        slots_cards(s.reserve).add(foundation_cards(s.foundation)),
        columns_cards(s.tableau),
        card,
    );
}

/// Emptying a reserve slot removes exactly the card it held.
pub proof fn lemma_remove_from_reserve_cards(s: BoardState, pos: int)
    requires
        0 <= pos < s.reserve.len(),
        s.reserve[pos] is Some,
    ensures
        s.remove_from_reserve(pos).cards().insert(s.reserve[pos]->Some_0) == s.cards(),
{
    broadcast use vstd::multiset::group_multiset_axioms;
    broadcast use vstd::multiset::group_multiset_properties;

    let c = s.reserve[pos]->Some_0;
    let r2 = s.reserve.update(pos, None);
    lemma_slots_cards_update(s.reserve, pos, None);
    assert(opt_cards(s.reserve[pos]) == Multiset::<Card>::empty().insert(c));
    assert(opt_cards(None::<Card>) == Multiset::<Card>::empty());
    lemma_add_empty(slots_cards(s.reserve));
    lemma_insert_shift(slots_cards(r2), Multiset::<Card>::empty(), c);
    lemma_add_empty(slots_cards(r2));
    assert(slots_cards(r2).insert(c) == slots_cards(s.reserve));
    lemma_insert_shift(slots_cards(r2), foundation_cards(s.foundation), c);
    lemma_insert_shift(
        slots_cards(r2).add(foundation_cards(s.foundation)),
        columns_cards(s.tableau),
        c,
    );
}

/// Popping a column's top card removes exactly that card.
pub proof fn lemma_pop_from_tableau_cards(s: BoardState, pos: int)
    requires
        0 <= pos < s.tableau.len(),
        s.tableau[pos].len() > 0,
    ensures
        s.pop_from_tableau(pos).cards().insert(s.tableau[pos].last()) == s.cards(),
{
    broadcast use vstd::multiset::group_multiset_axioms;
    broadcast use vstd::multiset::group_multiset_properties;
    broadcast use vstd::seq_lib::group_to_multiset_ensures;

    let col = s.tableau[pos];
    let c = col.last();
    let t2 = s.tableau.update(pos, col.drop_last());
    lemma_columns_cards_update(s.tableau, pos, col.drop_last());
    assert(col.drop_last().push(c) =~= col);
    assert(col.to_multiset() == col.drop_last().to_multiset().insert(c));
    lemma_insert_shift(columns_cards(t2), col.drop_last().to_multiset(), c);
    lemma_add_cancel(
        columns_cards(t2).insert(c),
        columns_cards(s.tableau),
        col.drop_last().to_multiset(),
    );
    lemma_insert_shift(
        slots_cards(s.reserve).add(foundation_cards(s.foundation)),
        columns_cards(t2),
        c,
    );
}

/// Moving a group between two columns leaves the board's holdings
/// unchanged.
pub proof fn lemma_move_group_cards(s: BoardState, a: int, b: int, n: int)
    requires
        a != b,
        0 <= a < s.tableau.len(),
        0 <= b < s.tableau.len(),
        1 <= n <= s.tableau[a].len(),
    ensures
        s.move_group(a, b, n).cards() == s.cards(),
{
    broadcast use vstd::multiset::group_multiset_axioms;

    let col_a = s.tableau[a];
    let col_b = s.tableau[b];
    let prefix = col_a.subrange(0, col_a.len() - n);
    let moved = col_a.subrange(col_a.len() - n, col_a.len() as int);
    assert(col_a =~= prefix + moved);
    vstd::seq_lib::lemma_multiset_commutative(prefix, moved);
    vstd::seq_lib::lemma_multiset_commutative(col_b, moved);
    let t1 = s.tableau.update(a, prefix);
    lemma_columns_cards_update(s.tableau, a, prefix);
    assert(t1[b] == col_b);
    let t2 = t1.update(b, col_b + moved);
    lemma_columns_cards_update(t1, b, col_b + moved);
    assert forall|x: Card| #[trigger] columns_cards(t2).count(x) == columns_cards(
        s.tableau,
    ).count(x) by {
        assert(columns_cards(t2).add(col_b.to_multiset()).count(x) == columns_cards(t1).add(
            (col_b + moved).to_multiset(),
        ).count(x));
        assert(columns_cards(t2).add(col_b.to_multiset()).count(x) == columns_cards(t2).count(x)
            + col_b.to_multiset().count(x));
        assert(columns_cards(t1).add((col_b + moved).to_multiset()).count(x) == columns_cards(
            t1,
        ).count(x) + (col_b + moved).to_multiset().count(x));
        assert((col_b + moved).to_multiset().count(x) == col_b.to_multiset().add(
            moved.to_multiset(),
        ).count(x));
        assert(columns_cards(t1).add(col_a.to_multiset()).count(x) == columns_cards(
            s.tableau,
        ).add(prefix.to_multiset()).count(x));
        assert(columns_cards(t1).add(col_a.to_multiset()).count(x) == columns_cards(t1).count(x)
            + col_a.to_multiset().count(x));
        assert(columns_cards(s.tableau).add(prefix.to_multiset()).count(x) == columns_cards(
            s.tableau,
        ).count(x) + prefix.to_multiset().count(x));
        assert(col_a.to_multiset().count(x) == prefix.to_multiset().add(
            moved.to_multiset(),
        ).count(x));
        assert(prefix.to_multiset().add(moved.to_multiset()).count(x) == prefix.to_multiset()
            .count(x) + moved.to_multiset().count(x));
        assert(col_b.to_multiset().add(moved.to_multiset()).count(x) == col_b.to_multiset()
            .count(x) + moved.to_multiset().count(x));
    }
    assert(columns_cards(t2) =~= columns_cards(s.tableau));
    assert(s.move_group(a, b, n).tableau == t2);
}

/// On a board holding the full deck, no tableau column can hold more than
/// the deck's 52 cards.
pub proof fn lemma_column_len_le_deck(s: BoardState, i: int)
    requires
        s.all_cards_present(),
        0 <= i < s.tableau.len(),
    ensures
        s.tableau[i].len() <= 52,
{
    broadcast use vstd::multiset::group_multiset_axioms;
    broadcast use vstd::seq_lib::group_to_multiset_ensures;

    crate::model::lemma_full_deck_len();
    crate::model::lemma_columns_cards_len_ge(s.tableau, i);
    assert(s.tableau[i].to_multiset().len() == s.tableau[i].len());
    assert(s.cards().len() == slots_cards(s.reserve).add(foundation_cards(s.foundation)).len()
        + columns_cards(s.tableau).len());
}

/// A non-empty column always has a movable group of at least one card.
pub proof fn lemma_group_size_pos(col: Seq<Card>)
    requires
        col.len() > 0,
    ensures
        BoardState::group_size_spec(col) >= 1,
{
}

/// From a non-empty column something can always be moved: the capacity is
/// at least one card, and never more than the column holds.
pub proof fn lemma_move_capacity_bounds(s: BoardState, a: int, b: int)
    requires
        s.wf(),
        a != b,
        0 <= a < s.tableau.len(),
        0 <= b < s.tableau.len(),
        s.tableau[a].len() > 0,
    ensures
        1 <= s.move_capacity_spec(a, b) <= s.tableau[a].len(),
{
    lemma_group_size_pos(s.tableau[a]);
    lemma_group_size_le_len(s.tableau[a]);
    lemma_count_free_reserve_bounds(s.reserve);
    let freed = if s.tableau[b].len() == 0 {
        count_empty_columns(s.tableau) - 1
    } else {
        count_empty_columns(s.tableau)
    };
    if s.tableau[b].len() == 0 {
        lemma_count_empty_columns_pos(s.tableau, b);
    } else {
        lemma_count_empty_columns_bounds(s.tableau);
    }
    lemma_pow2_pos(freed as nat);
    let budget = (count_free_reserve(s.reserve) + 1) * pow2(freed as nat);
    assert(budget >= 1) by (nonlinear_arith)
        requires
            count_free_reserve(s.reserve) + 1 >= 1,
            pow2(freed as nat) >= 1,
            budget == (count_free_reserve(s.reserve) + 1) * pow2(freed as nat),
    ;
}

/// A legal group move, moved straight back, restores the board exactly:
/// both columns regain their original contents and nothing else changes.
pub proof fn lemma_move_group_round_trip(s: BoardState, a: int, b: int, n: int)
    requires
        s.wf(),
        a != b,
        0 <= a < s.tableau.len(),
        0 <= b < s.tableau.len(),
        1 <= n <= s.move_capacity_spec(a, b),
        n <= s.move_group(a, b, n).move_capacity_spec(b, a),
    ensures
        s.move_group(a, b, n).move_group(b, a, n) == s,
{
    lemma_group_size_le_len(s.tableau[a]);
    let col_a = s.tableau[a];
    let col_b = s.tableau[b];
    let prefix = col_a.subrange(0, col_a.len() - n);
    let moved = col_a.subrange(col_a.len() - n, col_a.len() as int);
    let t1 = s.move_group(a, b, n);
    assert(t1.tableau[b] == col_b + moved);
    assert(t1.tableau[a] == prefix);
    let back = t1.tableau[b];
    assert(back.len() == col_b.len() + n);
    let t2 = t1.move_group(b, a, n);
    assert(back.subrange(0, back.len() - n) =~= col_b);
    assert(back.subrange(back.len() - n, back.len() as int) =~= moved);
    assert(prefix + moved =~= col_a);
    assert(t2.tableau =~= s.tableau);
    assert(t2 =~~= s);
}

/// While every foundation is empty, the automatic sweep would take exactly
/// the Aces: an Ace is always placeable and within the safety margin, and
/// no other card can be placed at all.
pub proof fn lemma_fresh_foundations_sweep_only_aces(s: BoardState, c: Card)
    requires
        s.foundation.len() == FOUNDATION_SLOTS,
        forall|i: int| 0 <= i < FOUNDATION_SLOTS ==> (#[trigger] s.foundation[i]) is None,
    ensures
        s.should_move_to_foundation_spec(c) <==> c.value.0 == ACE,
{
    assert(s.foundation[0] is None);
    assert(s.foundation[1] is None);
    assert(s.foundation[2] is None);
    assert(s.foundation[3] is None);
}

/// A legal foundation placement raises the foundations' combined height by
/// exactly one card.
proof fn lemma_place_raises_total(s: BoardState, card: Card)
    requires
        s.foundation.len() == FOUNDATION_SLOTS,
        s.can_move_to_foundation_spec(card),
    ensures
        s.place_on_foundation(card).foundation_total() == s.foundation_total() + 1,
{
    let t = s.place_on_foundation(card);
    assert(t.foundation_value(card.suit) == s.foundation_value(card.suit) + 1);
    assert(forall|x: Suit| x.index_spec() != card.suit.index_spec()
        ==> #[trigger] t.foundation_value(x) == s.foundation_value(x));
}

/// The reserve pass moves one card to the foundations for every unit of
/// budget it consumes.
proof fn lemma_sweep_reserve_total(s: BoardState, i: int, left: nat)
    requires
        s.foundation.len() == FOUNDATION_SLOTS,
    ensures
        s.sweep_reserve_from(i, left).1 <= left,
        s.sweep_reserve_from(i, left).0.foundation_total() == s.foundation_total() + left
            - s.sweep_reserve_from(i, left).1,
        s.sweep_reserve_from(i, left).0.foundation.len() == FOUNDATION_SLOTS,
    decreases s.reserve.len() - i,
{
    if i < 0 || i >= s.reserve.len() {
    } else if left > 0 && s.reserve[i] is Some && s.should_move_to_foundation_spec(
        s.reserve[i]->Some_0,
    ) {
        let c = s.reserve[i]->Some_0;
        let mid = s.remove_from_reserve(i);
        lemma_place_raises_total(mid, c);
        lemma_sweep_reserve_total(mid.place_on_foundation(c), i + 1, (left - 1) as nat);
    } else {
        lemma_sweep_reserve_total(s, i + 1, left);
    }
}

/// The tableau pass moves one card to the foundations for every unit of
/// budget it consumes.
proof fn lemma_sweep_tableau_total(s: BoardState, elig: Seq<bool>, i: int, left: nat)
    requires
        s.foundation.len() == FOUNDATION_SLOTS,
    ensures
        s.sweep_tableau_from(elig, i, left).1 <= left,
        s.sweep_tableau_from(elig, i, left).0.foundation_total() == s.foundation_total() + left
            - s.sweep_tableau_from(elig, i, left).1,
    decreases s.tableau.len() - i,
{
    if i < 0 || i >= s.tableau.len() {
    } else if left > 0 && elig[i] && s.tableau[i].len() > 0 && s.should_move_to_foundation_spec(
        s.tableau[i].last(),
    ) {
        let c = s.tableau[i].last();
        let mid = s.pop_from_tableau(i);
        lemma_place_raises_total(mid, c);
        lemma_sweep_tableau_total(mid.place_on_foundation(c), elig, i + 1, (left - 1) as nat);
    } else {
        lemma_sweep_tableau_total(s, elig, i + 1, left);
    }
}

/// One sweep batch respects its budget: the foundations advance by at most
/// `n` cards, and the report says whether they advanced at all.
pub proof fn lemma_sweep_batch_cap(s: BoardState, n: nat)
    requires
        s.foundation.len() == FOUNDATION_SLOTS,
        n >= 1,
    ensures
        s.foundation_total() <= s.sweep_spec(n).0.foundation_total() <= s.foundation_total()
            + n,
        s.sweep_spec(n).1 <==> s.sweep_spec(n).0.foundation_total() > s.foundation_total(),
{
    lemma_sweep_reserve_total(s, 0, n);
    let r1 = s.sweep_reserve_from(0, n);
    if r1.1 != 0 {
        lemma_sweep_tableau_total(r1.0, r1.0.sweep_candidates(), 0, r1.1);
    }
}

/// A vacant reserve gives the reserve pass nothing to do.
proof fn lemma_sweep_reserve_empty_noop(s: BoardState, i: int, left: nat)
    requires
        forall|j: int| 0 <= j < s.reserve.len() ==> (#[trigger] s.reserve[j]) is None,
    ensures
        s.sweep_reserve_from(i, left) == (s, left),
    decreases s.reserve.len() - i,
{
    if 0 <= i < s.reserve.len() {
        lemma_sweep_reserve_empty_noop(s, i + 1, left);
    }
}

/// The tableau pass touches only the columns it sweeps, and when every
/// candidate is an Ace top it can put nothing but Aces on the foundations.
proof fn lemma_ace_tableau_pass(s0: BoardState, cur: BoardState, elig: Seq<bool>, i: int, left: nat)
    requires
        cur.foundation.len() == FOUNDATION_SLOTS,
        cur.tableau.len() == s0.tableau.len(),
        elig.len() == s0.tableau.len(),
        forall|j: int| i <= j < cur.tableau.len()
            ==> #[trigger] cur.tableau[j] == s0.tableau[j],
        forall|j: int| 0 <= j < elig.len() && #[trigger] elig[j]
            ==> s0.tableau[j].len() > 0 && s0.tableau[j].last().value.0 == ACE,
        forall|k: int| 0 <= k < FOUNDATION_SLOTS ==> (#[trigger] cur.foundation[k]) is None
            || cur.foundation[k]->Some_0.value.0 == ACE,
    ensures
        forall|k: int| 0 <= k < FOUNDATION_SLOTS
            ==> (#[trigger] cur.sweep_tableau_from(elig, i, left).0.foundation[k]) is None
                || cur.sweep_tableau_from(elig, i, left).0.foundation[k]->Some_0.value.0 == ACE,
    decreases cur.tableau.len() - i,
{
    if i < 0 || i >= cur.tableau.len() {
    } else if left > 0 && elig[i] && cur.tableau[i].len() > 0
        && cur.should_move_to_foundation_spec(cur.tableau[i].last()) {
        let c = cur.tableau[i].last();
        assert(c == s0.tableau[i].last());
        assert(c.value.0 == ACE);
        let mid = cur.pop_from_tableau(i).place_on_foundation(c);
        assert(forall|j: int| i + 1 <= j < mid.tableau.len()
            ==> #[trigger] mid.tableau[j] == s0.tableau[j]);
        assert(forall|k: int| 0 <= k < FOUNDATION_SLOTS ==> (#[trigger] mid.foundation[k]) is None
            || mid.foundation[k]->Some_0.value.0 == ACE);
        lemma_ace_tableau_pass(s0, mid, elig, i + 1, (left - 1) as nat);
    } else {
        lemma_ace_tableau_pass(s0, cur, elig, i + 1, left);
    }
}

/// From a board with every foundation empty and the reserve vacant — the
/// shape a deal leaves — one sweep batch promotes Aces and nothing else:
/// afterwards each foundation is still empty or holds exactly its Ace.
pub proof fn lemma_fresh_sweep_places_only_aces(s: BoardState, n: nat)
    requires
        s.wf(),
        n >= 1,
        forall|i: int| 0 <= i < RESERVE_SLOTS ==> (#[trigger] s.reserve[i]) is None,
        forall|i: int| 0 <= i < FOUNDATION_SLOTS ==> (#[trigger] s.foundation[i]) is None,
    ensures
        forall|k: int| 0 <= k < FOUNDATION_SLOTS
            ==> (#[trigger] s.sweep_spec(n).0.foundation[k]) is None
                || s.sweep_spec(n).0.foundation[k]->Some_0.value.0 == ACE,
{
    lemma_sweep_reserve_empty_noop(s, 0, n);
    let elig = s.sweep_candidates();
    assert forall|j: int| 0 <= j < elig.len() && #[trigger] elig[j]
        implies s.tableau[j].len() > 0 && s.tableau[j].last().value.0 == ACE by {
        lemma_fresh_foundations_sweep_only_aces(s, s.tableau[j].last());
    }
    lemma_ace_tableau_pass(s, s, elig, 0, n);
}

/// A reserve pass over slots none of which hold a safe card changes
/// nothing.
proof fn lemma_sweep_reserve_noop(s: BoardState, i: int, left: nat)
    requires
        forall|j: int| 0 <= j < s.reserve.len() && (#[trigger] s.reserve[j]) is Some
            ==> !s.should_move_to_foundation_spec(s.reserve[j]->Some_0),
    ensures
        s.sweep_reserve_from(i, left) == (s, left),
    decreases s.reserve.len() - i,
{
    if 0 <= i < s.reserve.len() {
        lemma_sweep_reserve_noop(s, i + 1, left);
    }
}

/// A tableau pass whose candidate row is all false changes nothing.
proof fn lemma_sweep_tableau_noop(s: BoardState, elig: Seq<bool>, i: int, left: nat)
    requires
        forall|j: int| 0 <= j < elig.len() ==> !(#[trigger] elig[j]),
        elig.len() == s.tableau.len(),
    ensures
        s.sweep_tableau_from(elig, i, left) == (s, left),
    decreases s.tableau.len() - i,
{
    if 0 <= i < s.tableau.len() {
        lemma_sweep_tableau_noop(s, elig, i + 1, left);
    }
}

/// When no reserve card and no column top is safe to promote, a sweep batch
/// moves nothing and reports so: the pass that returns `false` really had
/// nothing left to do.
pub proof fn lemma_sweep_noop_when_nothing_safe(s: BoardState, n: nat)
    requires
        n >= 1,
        forall|j: int| 0 <= j < s.reserve.len() && (#[trigger] s.reserve[j]) is Some
            ==> !s.should_move_to_foundation_spec(s.reserve[j]->Some_0),
        forall|j: int| 0 <= j < s.tableau.len() && (#[trigger] s.tableau[j]).len() > 0
            ==> !s.should_move_to_foundation_spec(s.tableau[j].last()),
    ensures
        s.sweep_spec(n) == (s, false),
{
    lemma_sweep_reserve_noop(s, 0, n);
    let elig = s.sweep_candidates();
    assert forall|j: int| 0 <= j < elig.len() implies !(#[trigger] elig[j]) by {
        if s.tableau[j].len() > 0 {
            assert(!s.should_move_to_foundation_spec(s.tableau[j].last()));
        }
    }
    lemma_sweep_tableau_noop(s, elig, 0, n);
}

/// On a board holding the full deck once over, two columns never top the
/// same card.
proof fn lemma_distinct_tops(s: BoardState, i: int, j: int)
    requires
        s.wf(),
        s.all_cards_present(),
        0 <= i < j < s.tableau.len(),
        s.tableau[i].len() > 0,
        s.tableau[j].len() > 0,
    ensures
        s.tableau[i].last() != s.tableau[j].last(),
{
    broadcast use vstd::multiset::group_multiset_axioms;
    broadcast use vstd::seq_lib::group_to_multiset_ensures;

    if s.tableau[i].last() == s.tableau[j].last() {
        let c = s.tableau[i].last();
        assert(s.tableau[i].contains(c));
        assert(s.tableau[j].contains(c));
        assert(s.tableau[i].to_multiset().count(c) > 0);
        assert(s.tableau[j].to_multiset().count(c) > 0);
        crate::model::lemma_columns_cards_count_ge2(s.tableau, i, j, c);
        assert(s.cards().count(c) == slots_cards(s.reserve).add(
            foundation_cards(s.foundation),
        ).count(c) + columns_cards(s.tableau).count(c));
        lemma_full_deck_count(c);
        assert(false);
    }
}

/// How many of the entries from index `i` on are set.
pub open spec fn count_true_from(elig: Seq<bool>, i: int) -> int
    decreases elig.len() - i,
{
    if i < 0 || i >= elig.len() {
        0
    } else {
        (if elig[i] {
            1int
        } else {
            0
        }) + count_true_from(elig, i + 1)
    }
}

/// Walking the remaining candidate columns, all Ace tops of suits not yet
/// placed and of pairwise distinct suits, the pass spends exactly one unit
/// of budget per candidate until the budget runs out.
proof fn lemma_ace_pass_exact(s0: BoardState, cur: BoardState, elig: Seq<bool>, i: int, left: nat)
    requires
        cur.foundation.len() == FOUNDATION_SLOTS,
        cur.tableau.len() == s0.tableau.len(),
        elig.len() == s0.tableau.len(),
        forall|j: int| i <= j < cur.tableau.len()
            ==> #[trigger] cur.tableau[j] == s0.tableau[j],
        forall|j: int| 0 <= j < elig.len() && #[trigger] elig[j]
            ==> s0.tableau[j].len() > 0 && s0.tableau[j].last().value.0 == ACE,
        forall|j: int| i <= j < elig.len() && #[trigger] elig[j]
            ==> cur.foundation[s0.tableau[j].last().suit.index_spec()] is None,
        forall|j1: int, j2: int| 0 <= j1 < j2 < elig.len() && #[trigger] elig[j1]
            && #[trigger] elig[j2]
            ==> s0.tableau[j1].last().suit != s0.tableau[j2].last().suit,
    ensures
        cur.sweep_tableau_from(elig, i, left).1 == left - spec_min(
            left as int,
            count_true_from(elig, i),
        ),
    decreases cur.tableau.len() - i,
{
    lemma_count_true_nonneg(elig, i);
    if i < 0 || i >= cur.tableau.len() {
    } else if left > 0 && elig[i] && cur.tableau[i].len() > 0
        && cur.should_move_to_foundation_spec(cur.tableau[i].last()) {
        let c = cur.tableau[i].last();
        let mid = cur.pop_from_tableau(i).place_on_foundation(c);
        assert(c == s0.tableau[i].last());
        assert forall|j: int| i + 1 <= j < elig.len() && #[trigger] elig[j]
            implies mid.foundation[s0.tableau[j].last().suit.index_spec()] is None by {
            assert(s0.tableau[j].last().suit != c.suit);
        }
        lemma_count_true_nonneg(elig, i + 1);
        lemma_ace_pass_exact(s0, mid, elig, i + 1, (left - 1) as nat);
        assert(cur.sweep_tableau_from(elig, i, left) == mid.sweep_tableau_from(
            elig,
            i + 1,
            (left - 1) as nat,
        ));
        assert(count_true_from(elig, i) == 1 + count_true_from(elig, i + 1));
    } else {
        if left > 0 && elig[i] {
            let c = cur.tableau[i].last();
            assert(cur.tableau[i] == s0.tableau[i]);
            assert(cur.tableau[i].len() > 0);
            assert(cur.foundation_of(c.suit) is None);
            assert(cur.foundation_value(Suit::Club) >= 0);
            assert(cur.foundation_value(Suit::Spade) >= 0);
            assert(cur.foundation_value(Suit::Diamond) >= 0);
            assert(cur.foundation_value(Suit::Heart) >= 0);
            assert(cur.should_move_to_foundation_spec(c));
            assert(false);
        }
        lemma_ace_pass_exact(s0, cur, elig, i + 1, left);
        assert(cur.sweep_tableau_from(elig, i, left) == cur.sweep_tableau_from(
            elig,
            i + 1,
            left,
        ));
        lemma_count_true_nonneg(elig, i + 1);
    }
}

proof fn lemma_count_true_nonneg(elig: Seq<bool>, i: int)
    ensures
        count_true_from(elig, i) >= 0,
    decreases elig.len() - i,
{
    if 0 <= i < elig.len() {
        lemma_count_true_nonneg(elig, i + 1);
    }
}

/// From a board with every foundation empty and the reserve vacant, one
/// sweep batch with budget `n` promotes exactly as many Aces as the budget
/// and the candidate columns allow — `min(n, number of Ace tops)` — and
/// reports movement exactly when there was an Ace top at all. Repeated
/// batches therefore promote the Aces and only them, a budgetful at a time.
pub proof fn lemma_fresh_sweep_count(s: BoardState, n: nat)
    requires
        s.wf(),
        s.all_cards_present(),
        n >= 1,
        forall|i: int| 0 <= i < RESERVE_SLOTS ==> (#[trigger] s.reserve[i]) is None,
        forall|i: int| 0 <= i < FOUNDATION_SLOTS ==> (#[trigger] s.foundation[i]) is None,
    ensures
        s.sweep_spec(n).0.foundation_total() == spec_min(
            n as int,
            count_true_from(s.sweep_candidates(), 0),
        ),
        s.sweep_spec(n).1 <==> count_true_from(s.sweep_candidates(), 0) > 0,
{
    lemma_sweep_reserve_empty_noop(s, 0, n);
    let elig = s.sweep_candidates();
    assert forall|j: int| 0 <= j < elig.len() && #[trigger] elig[j]
        implies s.tableau[j].len() > 0 && s.tableau[j].last().value.0 == ACE by {
        lemma_fresh_foundations_sweep_only_aces(s, s.tableau[j].last());
    }
    assert forall|j1: int, j2: int|
        0 <= j1 < j2 < elig.len() && #[trigger] elig[j1] && #[trigger] elig[j2]
    implies s.tableau[j1].last().suit != s.tableau[j2].last().suit by {
        if s.tableau[j1].last().suit == s.tableau[j2].last().suit {
            assert(s.tableau[j1].last() == s.tableau[j2].last());
            lemma_distinct_tops(s, j1, j2);
        }
    }
    lemma_ace_pass_exact(s, s, elig, 0, n);
    lemma_sweep_tableau_total(s, elig, 0, n);
    lemma_count_true_nonneg(elig, 0);
    assert(s.foundation_total() == 0);
}

/// A card the board does not hold is free: in no reserve slot, not under
/// its suit's foundation top, and in no tableau column.
pub proof fn lemma_missing_card_is_free(s: BoardState, c: Card)
    requires
        s.wf(),
        c.valid(),
        s.cards().count(c) == 0,
    ensures
        s.free_card(c),
{
    broadcast use vstd::multiset::group_multiset_axioms;
    broadcast use vstd::multiset::group_multiset_properties;
    broadcast use vstd::seq_lib::group_to_multiset_ensures;

    assert(slots_cards(s.reserve).add(foundation_cards(s.foundation)).add(
        columns_cards(s.tableau),
    ).count(c) == slots_cards(s.reserve).count(c) + foundation_cards(s.foundation).count(c)
        + columns_cards(s.tableau).count(c));
    assert forall|i: int| 0 <= i < s.reserve.len()
        implies #[trigger] s.reserve[i] != Some(c) by {
        if s.reserve[i] == Some(c) {
            lemma_slots_cards_count_ge(s.reserve, i, c);
            assert(opt_cards(Some(c)).count(c) == 1);
        }
    }
    assert forall|i: int| 0 <= i < s.foundation.len() && s.foundation[i] is Some
        implies !c.is_lower_spec((#[trigger] s.foundation[i])->Some_0)
            && s.foundation[i] != Some(c) by {
        let f = s.foundation[i]->Some_0;
        if c.is_lower_spec(f) || s.foundation[i] == Some(c) {
            lemma_foundation_cards_count_ge(s.foundation, i, c);
            lemma_run_cards_count(f.suit, f.value.0 as nat, c);
        }
    }
    assert forall|i: int| 0 <= i < s.tableau.len()
        implies !(#[trigger] s.tableau[i]).contains(c) by {
        if s.tableau[i].contains(c) {
            lemma_columns_cards_count_ge(s.tableau, i, c);
            assert(s.tableau[i].to_multiset().count(c) > 0);
        }
    }
}

/// The cards of the first `i` suits' full runs, in foundation-slot order.
spec fn suits_prefix(i: int) -> Multiset<Card> {
    if i <= 0 {
        Multiset::empty()
    } else if i == 1 {
        run_cards(Suit::Club, 13)
    } else if i == 2 {
        run_cards(Suit::Club, 13).add(run_cards(Suit::Diamond, 13))
    } else if i == 3 {
        run_cards(Suit::Club, 13).add(run_cards(Suit::Diamond, 13)).add(
            run_cards(Suit::Heart, 13),
        )
    } else {
        full_deck()
    }
}

/// An ordered full deck: for each suit in foundation-slot order, the Ace
/// through the King.
fn make_deck() -> (deck: Vec<Card>)
    ensures
        deck@.to_multiset() == full_deck(),
        deck@.len() == 52,
{
    let mut deck: Vec<Card> = Vec::new();
    proof {
        broadcast use vstd::seq_lib::group_to_multiset_ensures;
        broadcast use vstd::multiset::group_multiset_axioms;

        assert(deck@.to_multiset().len() == 0);
        assert(deck@.to_multiset() =~= Multiset::<Card>::empty());
    }
    let mut si: usize = 0;
    while si < 4
        invariant
            si <= 4,
            deck@.len() == 13 * si,
            deck@.to_multiset() == suits_prefix(si as int),
        decreases 4 - si,
    {
        let suit = match si {
            0 => Suit::Club,
            1 => Suit::Diamond,
            2 => Suit::Heart,
            _ => Suit::Spade,
        };
        proof {
            lemma_add_empty(suits_prefix(si as int));
        }
        let mut v: u8 = 1;
        while v <= 13
            invariant
                1 <= v <= 14,
                si < 4,
                suit == (if si == 0 { Suit::Club } else if si == 1 { Suit::Diamond }
                    else if si == 2 { Suit::Heart } else { Suit::Spade }),
                deck@.len() == 13 * si + (v - 1),
                deck@.to_multiset() == suits_prefix(si as int).add(
                    run_cards(suit, (v - 1) as nat),
                ),
            decreases 14 - v,
        {
            let ghost before = deck@;
            deck.push(Card { suit, value: Face(v) });
            proof {
                broadcast use vstd::seq_lib::group_to_multiset_ensures;

                assert(deck@.to_multiset() == before.to_multiset().insert(
                    Card { suit, value: Face(v) },
                ));
                lemma_insert_shift(
                    suits_prefix(si as int),
                    run_cards(suit, (v - 1) as nat),
                    Card { suit, value: Face(v) },
                );
                assert(run_cards(suit, v as nat) == run_cards(suit, (v - 1) as nat).insert(
                    Card { suit, value: Face(v) },
                ));
            }
            v += 1;
        }
        si += 1;
        proof {
            if si == 1 {
                assert forall|x: Card|
                    #[trigger] suits_prefix(0).add(run_cards(suit, 13)).count(x)
                        == suits_prefix(1).count(x) by {
                    broadcast use vstd::multiset::group_multiset_axioms;

                    assert(suits_prefix(0).add(run_cards(suit, 13)).count(x)
                        == suits_prefix(0).count(x) + run_cards(suit, 13).count(x));
                }
                assert(suits_prefix(0).add(run_cards(suit, 13)) =~= suits_prefix(1)) by {
                    broadcast use vstd::multiset::group_multiset_axioms;
                }
            }
            assert(deck@.to_multiset() == suits_prefix(si as int));
        }
    }
    deck
}

/// Relies on rand's `SliceRandom::shuffle`: an in-place permutation of the
/// slice, picked by the thread-local generator, so the deck's length and its
/// multiset of cards are unchanged.
#[verifier::external_body]
fn shuffle_deck(deck: &mut Vec<Card>)
    ensures
        final(deck)@.len() == old(deck)@.len(),
        final(deck)@.to_multiset() == old(deck)@.to_multiset(),
{
    deck.shuffle(&mut rand::rng());
}

fn min2(a: u16, b: u16) -> (r: u16)
    ensures
        r == spec_min(a as int, b as int),
{
    if a <= b { a } else { b }
}

} // verus!
