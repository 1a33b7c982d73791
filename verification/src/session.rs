//! The session controller: one game of FreeCell. It owns the board and the
//! undo/redo history, resolves two-step player selections into board
//! mutations through the legality queries, drives the automatic sweep one
//! step per tick, tracks the win flag, and updates play statistics when a
//! game ends.

use vstd::prelude::*;

use crate::board::{BoardState, FreeCell, lemma_place_on_foundation_cards,
    lemma_place_on_tableau_cards, lemma_place_on_reserve_cards, lemma_remove_from_reserve_cards,
    lemma_pop_from_tableau_cards, lemma_move_group_cards, lemma_missing_card_is_free};
use crate::card::{Card, Color, RESERVE_SLOTS, FOUNDATION_SLOTS, TABLEAU_SLOTS};
use crate::model::{full_deck, lemma_full_deck_count};
use crate::stats::Stats;

verus! {

/// A reference to a slot, as the player selects one: the foundation, the
/// reserve as a whole, one reserve slot, or one tableau column.
#[derive(Copy, Clone, Debug, PartialEq, Eq, Structural)]
pub enum Action {
    Foundation,
    Reserve,
    ReserveSlot(u8),
    Slot(u8),
}

/// What a card-locate query matches on.
#[derive(Copy, Clone, Debug, PartialEq, Eq, Structural)]
pub enum Match {
    Nothing,
    Low,
    Value(u8),
}

/// An in-progress card-locate query: an optional color filter and what to
/// match.
#[derive(Copy, Clone, Debug)]
pub struct Locate {
    pub color: Option<Color>,
    pub what: Match,
}

/// The outcome of resolving a player action.
#[derive(Copy, Clone, Debug, PartialEq, Eq, Structural)]
pub enum ActionOutcome {
    /// The reference became (or replaced) the pending selection.
    Selected,
    /// A move was made.
    Moved,
    InvalidAction,
    TableauEmpty,
    ReserveEmpty,
    InvalidReserveSlot,
    CannotMoveToFoundation,
    CannotMoveToTableau,
    NoFreeReserve,
    InsufficientCapacity,
    CannotMove,
}

/// The outcome of an undo or redo request.
#[derive(Copy, Clone, Debug, PartialEq, Eq, Structural)]
pub enum UndoOutcome {
    Done,
    NoChanges,
    AtInitialState,
    AtNewestState,
}

/// What one tick of the session did.
#[derive(Copy, Clone, Debug, PartialEq, Eq, Structural)]
pub enum TickOutcome {
    /// The game has just been won.
    Won,
    /// The sweep moved at least one card.
    Swept,
    Idle,
}

/// The abstract state of a session.
#[verifier::ext_equal]
pub ghost struct SessionState {
    pub fc: BoardState,
    pub stats: Stats,
    pub undo: Seq<BoardState>,
    pub undo_index: int,
    pub action: Option<Action>,
    pub locate: Option<Locate>,
    pub try_sweep: bool,
    pub game_won: bool,
}

pub struct FreeCellGame {
    fc: FreeCell,
    stats: Stats,
    undo: Vec<FreeCell>,
    /// Index into `undo` of the current state; equal to `undo.len()` when
    /// the current state is the newest.
    undo_index: usize,
    action: Option<Action>,
    locate: Option<Locate>,
    try_sweep: bool,
    game_won: bool,
}

impl View for FreeCellGame {
    type V = SessionState;

    closed spec fn view(&self) -> SessionState {
        SessionState {
            fc: self.fc@,
            stats: self.stats,
            undo: Seq::new(self.undo@.len(), |i: int| self.undo@[i]@),
            undo_index: self.undo_index as int,
            action: self.action,
            locate: self.locate,
            try_sweep: self.try_sweep,
            game_won: self.game_won,
        }
    }
}

impl SessionState {
    /// A pending selection only ever names a slot that exists.
    pub open spec fn action_wf(self) -> bool {
        match self.action {
            Some(Action::ReserveSlot(n)) => n < RESERVE_SLOTS,
            Some(Action::Slot(n)) => n < TABLEAU_SLOTS,
            _ => true,
        }
    }

    /// The session invariant: the live board and every snapshot in the
    /// history are well-formed and hold the full 52-card deck, the cursor
    /// is within the log (and, when the live board is not the newest state,
    /// the log ends with the formerly-live board above the cursor), and any
    /// pending selection is in range.
    pub open spec fn inv(self) -> bool {
        &&& self.fc.wf()
        &&& self.fc.all_cards_present()
        &&& 0 <= self.undo_index <= self.undo.len()
        &&& self.undo_index == self.undo.len() || self.undo_index + 2 <= self.undo.len()
        &&& forall|i: int| 0 <= i < self.undo.len() ==> (#[trigger] self.undo[i]).wf()
                && self.undo[i].all_cards_present()
        &&& self.action_wf()
    }

    /// The history after recording the live board: the redo branch beyond
    /// the cursor is discarded, the board is appended, and the cursor moves
    /// to the end of the log.
    pub open spec fn push_undo_spec(self) -> SessionState {
        let log = self.undo.subrange(0, self.undo_index).push(self.fc);
        SessionState { undo: log, undo_index: log.len() as int, ..self }
    }

    /// One undo request. With an empty log or the cursor at the start there
    /// is nothing to step back to; otherwise the board at the new cursor
    /// becomes live, and when the live board was the newest state it is
    /// first appended to the log so a redo can find it. A successful step
    /// re-arms the automatic sweep: sweeps are not recorded in the history,
    /// they replay on the following ticks.
    pub open spec fn undo_spec(self) -> (SessionState, UndoOutcome) {
        if self.undo.len() == 0 {
            (self, UndoOutcome::NoChanges)
        } else if self.undo_index == 0 {
            (self, UndoOutcome::AtInitialState)
        } else if self.undo_index == self.undo.len() {
            (
                SessionState {
                    fc: self.undo[self.undo_index - 1],
                    undo: self.undo.push(self.fc),
                    undo_index: self.undo_index - 1,
                    try_sweep: true,
                    ..self
                },
                UndoOutcome::Done,
            )
        } else {
            (
                SessionState {
                    fc: self.undo[self.undo_index - 1],
                    undo_index: self.undo_index - 1,
                    try_sweep: true,
                    ..self
                },
                UndoOutcome::Done,
            )
        }
    }

    /// One sweep batch: up to three safe cards go to their foundations;
    /// when nothing moved, the pending-sweep flag is cleared.
    pub open spec fn sweep_step_spec(self) -> (SessionState, bool) {
        let swept = self.fc.sweep_spec(3);
        (
            SessionState {
                fc: swept.0,
                try_sweep: if swept.1 { self.try_sweep } else { false },
                ..self
            },
            swept.1,
        )
    }

    /// One tick while the game is not paused: victory is detected first;
    /// otherwise a pending sweep advances one batch.
    pub open spec fn tick_spec(self) -> (SessionState, TickOutcome) {
        if self.fc.game_over_spec() {
            (SessionState { game_won: true, ..self }, TickOutcome::Won)
        } else if self.try_sweep {
            let step = self.sweep_step_spec();
            (step.0, if step.1 { TickOutcome::Swept } else { TickOutcome::Idle })
        } else {
            (self, TickOutcome::Idle)
        }
    }

    /// The statistics after folding in a finished game: a game counts once
    /// any move was recorded; a won game updates the times and extends the
    /// streak, a lost one ends the streak.
    pub open spec fn game_end_spec(self, t: u32) -> Stats {
        if self.undo.len() == 0 {
            self.stats
        } else if self.game_won {
            let lowest = if self.stats.lowest_time == 0 {
                t
            } else if t <= self.stats.lowest_time {
                t
            } else {
                self.stats.lowest_time
            };
            let highest = if t >= self.stats.highest_time {
                t
            } else {
                self.stats.highest_time
            };
            let current = (self.stats.current_streak + 1) as u32;
            Stats {
                games: (self.stats.games + 1) as u32,
                won: (self.stats.won + 1) as u32,
                lowest_time: lowest,
                highest_time: highest,
                total_time: (self.stats.total_time + t) as u32,
                current_streak: current,
                longest_streak: if current >= self.stats.longest_streak {
                    current
                } else {
                    self.stats.longest_streak
                },
            }
        } else {
            Stats { games: (self.stats.games + 1) as u32, current_streak: 0, ..self.stats }
        }
    }

    /// Whether a card lights up under the current locate query.
    pub open spec fn highlight_card_spec(self, card: Card) -> bool {
        match self.locate {
            None => false,
            Some(loc) => {
                let match_color = match loc.color {
                    None => true,
                    Some(c) => card.suit.color_spec() == c,
                };
                let match_what = match loc.what {
                    Match::Nothing => false,
                    Match::Low => self.fc.can_move_to_foundation_spec(card),
                    Match::Value(n) => card.value.0 == n,
                };
                match_color && match_what
            },
        }
    }

    /// Whether a foundation top lights up under the current locate query:
    /// a value query matches when the sought value is already buried in
    /// that pile.
    pub open spec fn highlight_foundation_spec(self, top: Card) -> bool {
        match self.locate {
            None => false,
            Some(loc) => {
                let match_color = match loc.color {
                    None => true,
                    Some(c) => top.suit.color_spec() == c,
                };
                let match_what = match loc.what {
                    Match::Nothing => false,
                    Match::Low => false,
                    Match::Value(n) => n <= top.value.0,
                };
                match_color && match_what
            },
        }
    }

    /// The status line for the pending selection.
    pub open spec fn action_str_spec(self) -> Seq<char> {
        match self.action {
            Some(Action::Reserve) => seq!['R'],
            Some(Action::ReserveSlot(n)) => seq!['R', ' ', slot_name_spec(n as int)],
            Some(Action::Slot(n)) => seq![slot_name_spec(n as int)],
            _ => Seq::empty(),
        }
    }

    /// One redo request. With an empty log or the cursor at the end there
    /// is nothing to step forward to; stepping onto the log's last entry
    /// takes it back out of the log (undoing the lazy append of `undo`).
    /// A successful step re-arms the automatic sweep, as an undo does.
    pub open spec fn redo_spec(self) -> (SessionState, UndoOutcome) {
        if self.undo.len() == 0 {
            (self, UndoOutcome::NoChanges)
        } else if self.undo_index == self.undo.len() {
            (self, UndoOutcome::AtNewestState)
        } else if self.undo_index == self.undo.len() - 2 {
            (
                SessionState {
                    fc: self.undo.last(),
                    undo: self.undo.drop_last(),
                    undo_index: self.undo_index + 1,
                    try_sweep: true,
                    ..self
                },
                UndoOutcome::Done,
            )
        } else {
            (
                SessionState {
                    fc: self.undo[self.undo_index + 1],
                    undo_index: self.undo_index + 1,
                    try_sweep: true,
                    ..self
                },
                UndoOutcome::Done,
            )
        }
    }
}

/// The key label of a tableau column, as shown on the status line.
pub open spec fn slot_name_spec(n: int) -> char {
    if n == 0 {
        'A'
    } else if n == 1 {
        'S'
    } else if n == 2 {
        'D'
    } else if n == 3 {
        'F'
    } else if n == 4 {
        'G'
    } else if n == 5 {
        'H'
    } else if n == 6 {
        'J'
    } else {
        'K'
    }
}

/// The first index `i`, counting down from the top of the column (`i` = 1
/// is the top card), of a card that may be stacked on `top`; -1 when no
/// card within the first `size` fits.
pub open spec fn first_fit_from(col: Seq<Card>, top: Card, i: int, size: int) -> int
    decreases size + 1 - i,
{
    if i < 1 || i > size {
        -1
    } else if col[col.len() - i].can_top_spec(top) {
        i
    } else {
        first_fit_from(col, top, i + 1, size)
    }
}

impl SessionState {
    /// Moving a tableau column's top card to a free reserve slot, with the
    /// reasons it can fail.
    pub open spec fn move_to_reserve_spec(self, a: int) -> (SessionState, ActionOutcome) {
        if self.fc.tableau[a].len() == 0 {
            (self, ActionOutcome::TableauEmpty)
        } else if self.fc.reserve_free_spec() {
            let p = self.push_undo_spec();
            let c = p.fc.tableau[a].last();
            (
                SessionState { fc: p.fc.pop_from_tableau(a).place_on_reserve(c), ..p },
                ActionOutcome::Moved,
            )
        } else {
            (self, ActionOutcome::NoFreeReserve)
        }
    }

    /// Moving cards from column `a` onto column `b`. Onto a non-empty
    /// column, the shallowest card of `a`'s movable group that stacks on
    /// `b`'s top card moves with everything above it, capacity permitting;
    /// onto an empty column, as many cards as the capacity allows.
    pub open spec fn move_tableau_spec(self, a: int, b: int) -> (SessionState, ActionOutcome) {
        if self.fc.tableau[b].len() > 0 {
            let top = self.fc.tableau[b].last();
            let size = BoardState::group_size_spec(self.fc.tableau[a]) as int;
            let cap = self.fc.move_capacity_spec(a, b);
            let fit = first_fit_from(self.fc.tableau[a], top, 1, size);
            if fit == -1 {
                (self, ActionOutcome::CannotMove)
            } else if fit > cap {
                (self, ActionOutcome::InsufficientCapacity)
            } else {
                let p = self.push_undo_spec();
                (
                    SessionState { fc: p.fc.move_group(a, b, fit), ..p },
                    ActionOutcome::Moved,
                )
            }
        } else {
            let p = self.push_undo_spec();
            let cap = p.fc.move_capacity_spec(a, b);
            (SessionState { fc: p.fc.move_group(a, b, cap), ..p }, ActionOutcome::Moved)
        }
    }

    /// Resolving a selected pair of references into a board mutation, a new
    /// selection, or a named failure, the board untouched on failure.
    pub open spec fn resolve_pair_spec(self, old_act: Action, act: Action) -> (
        SessionState,
        ActionOutcome,
    ) {
        match (old_act, act) {
            (Action::Reserve, Action::Slot(n)) => if n <= 3 {
                if self.fc.reserve[n as int] is Some {
                    (
                        SessionState { action: Some(Action::ReserveSlot(n)), ..self },
                        ActionOutcome::Selected,
                    )
                } else {
                    (self, ActionOutcome::ReserveEmpty)
                }
            } else {
                (self, ActionOutcome::InvalidReserveSlot)
            },
            (Action::ReserveSlot(n), Action::Foundation) => match self.fc.reserve[n as int] {
                Some(c) => if self.fc.can_move_to_foundation_spec(c) {
                    let p = self.push_undo_spec();
                    (
                        SessionState {
                            fc: p.fc.remove_from_reserve(n as int).place_on_foundation(c),
                            ..p
                        },
                        ActionOutcome::Moved,
                    )
                } else {
                    (self, ActionOutcome::CannotMoveToFoundation)
                },
                None => (self, ActionOutcome::ReserveEmpty),
            },
            (Action::ReserveSlot(n), Action::Slot(b)) => match self.fc.reserve[n as int] {
                Some(c) => if self.fc.can_move_to_tableau_spec(c, b as int) {
                    let p = self.push_undo_spec();
                    (
                        SessionState {
                            fc: p.fc.remove_from_reserve(n as int).place_on_tableau(c, b as int),
                            ..p
                        },
                        ActionOutcome::Moved,
                    )
                } else {
                    (self, ActionOutcome::CannotMoveToTableau)
                },
                None => (self, ActionOutcome::ReserveEmpty),
            },
            (Action::Slot(a), Action::Foundation) => if self.fc.tableau[a as int].len() > 0 {
                let c = self.fc.tableau[a as int].last();
                if self.fc.can_move_to_foundation_spec(c) {
                    let p = self.push_undo_spec();
                    (
                        SessionState {
                            fc: p.fc.pop_from_tableau(a as int).place_on_foundation(c),
                            ..p
                        },
                        ActionOutcome::Moved,
                    )
                } else {
                    (self, ActionOutcome::CannotMoveToFoundation)
                }
            } else {
                (self, ActionOutcome::TableauEmpty)
            },
            (Action::Slot(a), Action::Reserve) => self.move_to_reserve_spec(a as int),
            (Action::Slot(a), Action::Slot(b)) => if a == b {
                self.move_to_reserve_spec(a as int)
            } else if self.fc.tableau[a as int].len() == 0 {
                (self, ActionOutcome::TableauEmpty)
            } else {
                self.move_tableau_spec(a as int, b as int)
            },
            _ => (self, ActionOutcome::InvalidAction),
        }
    }

    /// One player reference. With nothing selected it becomes the pending
    /// selection (the foundation and an empty column are refused);
    /// otherwise the pair is resolved, the selection is consumed, and the
    /// sweep is re-armed.
    pub open spec fn action_spec(self, act: Action) -> (SessionState, ActionOutcome) {
        match self.action {
            None => match act {
                Action::Foundation => (self, ActionOutcome::InvalidAction),
                Action::Slot(n) => if self.fc.tableau[n as int].len() == 0 {
                    (self, ActionOutcome::TableauEmpty)
                } else {
                    (SessionState { action: Some(act), ..self }, ActionOutcome::Selected)
                },
                _ => (SessionState { action: Some(act), ..self }, ActionOutcome::Selected),
            },
            Some(old_act) => {
                let s0 = SessionState { action: None, ..self };
                let step = s0.resolve_pair_spec(old_act, act);
                (SessionState { try_sweep: true, ..step.0 }, step.1)
            },
        }
    }
}

/// An action a caller may hand to the session: any tableau or reserve slot
/// it names exists.
pub open spec fn valid_action(act: Action) -> bool {
    match act {
        Action::ReserveSlot(n) => n < RESERVE_SLOTS,
        Action::Slot(n) => n < TABLEAU_SLOTS,
        _ => true,
    }
}

/// A successful player move first records the prior board and leaves the
/// history cursor at the log's end. From any state of that shape, one undo
/// reports `Done` and restores exactly the board recorded before the move,
/// and one redo then reports `Done` and restores exactly the board the move
/// produced, with the history as the move left it.
pub proof fn lemma_undo_redo_round_trip(pre: SessionState, post: SessionState)
    requires
        0 <= pre.undo_index <= pre.undo.len(),
        post.undo == pre.undo.subrange(0, pre.undo_index).push(pre.fc),
        post.undo_index == post.undo.len(),
    ensures
        post.undo_spec().1 == UndoOutcome::Done,
        post.undo_spec().0.fc == pre.fc,
        post.undo_spec().0.redo_spec().1 == UndoOutcome::Done,
        post.undo_spec().0.redo_spec().0.fc == post.fc,
        post.undo_spec().0.redo_spec().0.undo == post.undo,
        post.undo_spec().0.redo_spec().0.undo_index == post.undo_index,
{
    let mid = post.undo_spec().0;
    assert(post.undo.len() >= 1);
    assert(post.undo[post.undo.len() - 1] == pre.fc);
    assert(mid.undo == post.undo.push(post.fc));
    assert(mid.undo_index == mid.undo.len() - 2);
    assert(mid.undo.last() == post.fc);
    assert(mid.redo_spec().0.undo =~= post.undo);
}

/// The session after `j` consecutive undo requests.
pub open spec fn undo_times(s: SessionState, j: int) -> SessionState
    decreases j,
{
    if j <= 0 {
        s
    } else {
        undo_times(s, j - 1).undo_spec().0
    }
}

/// Undoing repeatedly from the newest state walks back through the log:
/// each of the first `undo.len()` requests reports `Done`, and after `j` of
/// them the live board is exactly the one recorded `j` moves earlier — in
/// particular, after as many undos as there were recorded moves, the board
/// as first dealt. One request beyond that reports `AtInitialState` and
/// changes nothing.
pub proof fn lemma_undo_replays_the_log(s: SessionState, j: int)
    requires
        s.undo_index == s.undo.len(),
        1 <= j <= s.undo.len(),
    ensures
        undo_times(s, j - 1).undo_spec().1 == UndoOutcome::Done,
        undo_times(s, j).fc == s.undo[s.undo.len() - j],
        undo_times(s, j).undo_index == s.undo.len() - j,
        undo_times(s, j).undo == s.undo.push(s.fc),
        j == s.undo.len() ==> undo_times(s, j).undo_spec() == (
            undo_times(s, j),
            UndoOutcome::AtInitialState,
        ),
    decreases j,
{
    if j == 1 {
        assert(undo_times(s, 0) == s);
        assert(undo_times(s, 1) == s.undo_spec().0);
        assert(undo_times(s, 1).undo =~= s.undo.push(s.fc));
    } else {
        lemma_undo_replays_the_log(s, j - 1);
        let m = undo_times(s, j - 1);
        assert(m.undo_index == s.undo.len() - (j - 1));
        assert(1 <= m.undo_index < m.undo.len());
        assert(m.undo[m.undo_index - 1] == s.undo[s.undo.len() - j]);
    }
}

impl FreeCellGame {
    /// A fresh session over a newly shuffled and dealt board: every card on
    /// the tableau in columns of seven or six, reserve and foundations
    /// vacant.
    pub fn new() -> (r: FreeCellGame)
        ensures
            r@.inv(),
            r@.stats == Stats::zero(),
            r@.undo.len() == 0,
            r@.undo_index == 0,
            r@.action is None,
            r@.locate is None,
            r@.try_sweep,
            !r@.game_won,
            forall|i: int| 0 <= i < RESERVE_SLOTS ==> (#[trigger] r@.fc.reserve[i]) is None,
            forall|i: int| 0 <= i < FOUNDATION_SLOTS ==> (#[trigger] r@.fc.foundation[i]) is None,
            forall|j: int| 0 <= j < TABLEAU_SLOTS ==> 52 <= 8 * (#[trigger] r@.fc.tableau[
                j
            ]).len() + j < 60,
    {
        FreeCellGame {
            fc: FreeCell::new(),
            stats: Stats::new(),
            undo: Vec::new(),
            undo_index: 0,
            action: None,
            locate: None,
            try_sweep: true,
            game_won: false,
        }
    }

    /// A fresh session over a given full deck, dealt round-robin: column
    /// `j` takes every eighth card starting at the `j`th, reserve and
    /// foundations vacant.
    pub fn from_deck(deck: Vec<Card>) -> (r: FreeCellGame)
        requires
            deck@.to_multiset() == full_deck(),
            deck@.len() == 52,
        ensures
            r@.inv(),
            r@.stats == Stats::zero(),
            r@.undo.len() == 0,
            r@.undo_index == 0,
            r@.action is None,
            r@.locate is None,
            r@.try_sweep,
            !r@.game_won,
            forall|i: int| 0 <= i < RESERVE_SLOTS ==> (#[trigger] r@.fc.reserve[i]) is None,
            forall|i: int| 0 <= i < FOUNDATION_SLOTS ==> (#[trigger] r@.fc.foundation[i]) is None,
            forall|j: int| 0 <= j < TABLEAU_SLOTS ==> 52 <= 8 * (#[trigger] r@.fc.tableau[
                j
            ]).len() + j < 60,
            forall|j: int, k: int| 0 <= j < TABLEAU_SLOTS && 0 <= k < r@.fc.tableau[j].len()
                ==> (#[trigger] r@.fc.tableau[j][k]) == deck@[k * 8 + j],
    {
        FreeCellGame {
            fc: FreeCell::from_deck(deck),
            stats: Stats::new(),
            undo: Vec::new(),
            undo_index: 0,
            action: None,
            locate: None,
            try_sweep: true,
            game_won: false,
        }
    }

    /// The live board.
    pub fn board(&self) -> (r: &FreeCell)
        ensures
            r@ == self@.fc,
    {
        &self.fc
    }

    pub fn stats(&self) -> (r: Stats)
        ensures
            r == self@.stats,
    {
        self.stats
    }

    /// Replaces the statistics, as loaded by the caller at startup.
    pub fn set_stats(&mut self, stats: Stats)
        ensures
            final(self)@ == (SessionState { stats, ..old(self)@ }),
            old(self)@.inv() ==> final(self)@.inv(),
    {
        self.stats = stats;
        proof {
            assert(self@ =~~= (SessionState { stats, ..old(self)@ }));
        }
    }

    pub fn game_won(&self) -> (r: bool)
        ensures
            r == self@.game_won,
    {
        self.game_won
    }

    pub fn pending_action(&self) -> (r: Option<Action>)
        ensures
            r == self@.action,
    {
        self.action
    }

    pub fn locate(&self) -> (r: Option<Locate>)
        ensures
            r == self@.locate,
    {
        self.locate
    }

    pub fn try_sweep(&self) -> (r: bool)
        ensures
            r == self@.try_sweep,
    {
        self.try_sweep
    }

    pub fn undo_count(&self) -> (r: usize)
        ensures
            r == self@.undo.len(),
            self@.inv() ==> self@.undo_index <= r,
    {
        self.undo.len()
    }

    pub fn undo_index(&self) -> (r: usize)
        ensures
            r == self@.undo_index,
    {
        self.undo_index
    }

    /// Begins a card-locate query matching nothing yet.
    pub fn begin_locate(&mut self)
        ensures
            final(self)@ == (SessionState {
                locate: Some(Locate { color: None, what: Match::Nothing }),
                ..old(self)@
            }),
            old(self)@.inv() ==> final(self)@.inv(),
    {
        self.locate = Some(Locate { color: None, what: Match::Nothing });
        proof {
            assert(self@ =~~= (SessionState {
                locate: Some(Locate { color: None, what: Match::Nothing }),
                ..old(self)@
            }));
        }
    }

    /// Replaces the locate query.
    pub fn set_locate(&mut self, locate: Option<Locate>)
        ensures
            final(self)@ == (SessionState { locate, ..old(self)@ }),
            old(self)@.inv() ==> final(self)@.inv(),
    {
        self.locate = locate;
        proof {
            assert(self@ =~~= (SessionState { locate, ..old(self)@ }));
        }
    }

    /// Records the live board in the history, discarding any redo branch.
    fn push_undo(&mut self)
        requires
            old(self)@.inv(),
        ensures
            final(self)@ == old(self)@.push_undo_spec(),
            final(self)@.inv(),
            final(self)@.undo_index == final(self)@.undo.len(),
    {
        self.undo.truncate(self.undo_index);
        self.undo.push(self.fc.snapshot());
        self.undo_index = self.undo.len();
        proof {
            assert(self@.undo =~= old(self)@.undo.subrange(0, old(self)@.undo_index).push(
                old(self)@.fc,
            ));
            assert(self@ =~~= old(self)@.push_undo_spec());
            assert forall|i: int| 0 <= i < self@.undo.len()
                implies (#[trigger] self@.undo[i]).wf() && self@.undo[i].all_cards_present() by {
                if i < old(self)@.undo_index {
                    assert(self@.undo[i] == old(self)@.undo[i]);
                } else {
                    assert(self@.undo[i] == old(self)@.fc);
                }
            }
        }
    }

    /// Steps the session back to the previous board, if there is one.
    pub fn undo(&mut self) -> (r: UndoOutcome)
        requires
            old(self)@.inv(),
        ensures
            final(self)@.inv(),
            (final(self)@, r) == old(self)@.undo_spec(),
    {
        if self.undo.is_empty() {
            return UndoOutcome::NoChanges;
        }
        if self.undo_index == 0 {
            return UndoOutcome::AtInitialState;
        }
        let new_fc = self.undo[self.undo_index - 1].snapshot();
        if self.undo_index == self.undo.len() {
            self.undo.push(self.fc.snapshot());
            self.fc = new_fc;
        } else {
            self.fc = new_fc;
        }
        self.undo_index -= 1;
        self.try_sweep = true;
        proof {
            if old(self)@.undo_index == old(self)@.undo.len() {
                assert(self@.undo =~= old(self)@.undo.push(old(self)@.fc));
            }
            assert(self@ =~~= old(self)@.undo_spec().0);
        }
        UndoOutcome::Done
    }

    /// Steps the session forward again after an undo, if it can.
    pub fn redo(&mut self) -> (r: UndoOutcome)
        requires
            old(self)@.inv(),
        ensures
            final(self)@.inv(),
            (final(self)@, r) == old(self)@.redo_spec(),
    {
        if self.undo.is_empty() {
            return UndoOutcome::NoChanges;
        }
        if self.undo_index == self.undo.len() {
            return UndoOutcome::AtNewestState;
        }
        if self.undo_index == self.undo.len() - 2 {
            self.undo_index += 1;
            self.fc = self.undo.pop().unwrap();
            self.try_sweep = true;
            proof {
                assert(self@ =~~= old(self)@.redo_spec().0);
            }
        } else {
            self.undo_index += 1;
            self.fc = self.undo[self.undo_index].snapshot();
            self.try_sweep = true;
            proof {
                assert(self@ =~~= old(self)@.redo_spec().0);
            }
        }
        UndoOutcome::Done
    }

    /// Resolves one player reference against the pending selection.
    pub fn action(&mut self, act: Action) -> (r: ActionOutcome)
        requires
            old(self)@.inv(),
            valid_action(act),
        ensures
            final(self)@.inv(),
            (final(self)@, r) == old(self)@.action_spec(act),
    {
        let old_act = self.action;
        self.action = None;
        match old_act {
            None => {
                match act {
                    Action::Foundation => {
                        proof {
                            assert(self@ =~~= old(self)@);
                        }
                        ActionOutcome::InvalidAction
                    }
                    Action::Slot(n) => {
                        if self.fc.tableau(n as usize).len() == 0 {
                            proof {
                                assert(self@ =~~= old(self)@);
                            }
                            ActionOutcome::TableauEmpty
                        } else {
                            self.action = Some(act);
                            proof {
                                assert(self@ =~~= (SessionState {
                                    action: Some(act),
                                    ..old(self)@
                                }));
                            }
                            ActionOutcome::Selected
                        }
                    }
                    _ => {
                        self.action = Some(act);
                        proof {
                            assert(self@ =~~= (SessionState { action: Some(act), ..old(self)@ }));
                        }
                        ActionOutcome::Selected
                    }
                }
            }
            Some(oa) => {
                let ghost s0 = SessionState { action: None, ..old(self)@ };
                proof {
                    assert(self@ =~~= s0);
                }
                let out = self.resolve_pair(oa, act);
                self.try_sweep = true;
                proof {
                    assert(self@ =~~= (SessionState { try_sweep: true, ..s0.resolve_pair_spec(
                        oa,
                        act,
                    ).0 }));
                }
                out
            }
        }
    }

    /// Resolves a selected pair of references.
    fn resolve_pair(&mut self, old_act: Action, act: Action) -> (r: ActionOutcome)
        requires
            old(self)@.inv(),
            old(self)@.action is None,
            valid_action(act),
            match old_act {
                Action::ReserveSlot(n) => n < RESERVE_SLOTS,
                Action::Slot(n) => n < TABLEAU_SLOTS,
                _ => true,
            },
        ensures
            final(self)@.inv(),
            final(self)@.action_wf(),
            (final(self)@, r) == old(self)@.resolve_pair_spec(old_act, act),
    {
        match (old_act, act) {
            (Action::Reserve, Action::Slot(n)) => {
                if n <= 3 {
                    if self.fc.reserve(n as usize).is_some() {
                        self.action = Some(Action::ReserveSlot(n));
                        proof {
                            assert(self@ =~~= (SessionState {
                                action: Some(Action::ReserveSlot(n)),
                                ..old(self)@
                            }));
                        }
                        ActionOutcome::Selected
                    } else {
                        ActionOutcome::ReserveEmpty
                    }
                } else {
                    ActionOutcome::InvalidReserveSlot
                }
            }
            (Action::ReserveSlot(n), Action::Foundation) => {
                match self.fc.reserve(n as usize) {
                    Some(c) => {
                        if self.fc.can_move_to_foundation(c) {
                            self.push_undo();
                            let ghost p = self@;
                            self.fc.remove_reserve(n as usize);
                            proof {
                                self.lemma_after_remove_reserve(p, n as int, c);
                            }
                            self.fc.add_to_foundation(c);
                            proof {
                                lemma_place_on_foundation_cards(
                                    p.fc.remove_from_reserve(n as int),
                                    c,
                                );
                                assert(self@ =~~= (SessionState {
                                    fc: p.fc.remove_from_reserve(n as int).place_on_foundation(c),
                                    ..p
                                }));
                            }
                            ActionOutcome::Moved
                        } else {
                            ActionOutcome::CannotMoveToFoundation
                        }
                    }
                    None => ActionOutcome::ReserveEmpty,
                }
            }
            (Action::ReserveSlot(n), Action::Slot(b)) => {
                match self.fc.reserve(n as usize) {
                    Some(c) => {
                        if self.fc.can_move_to_tableau(c, b as usize) {
                            self.push_undo();
                            let ghost p = self@;
                            self.fc.remove_reserve(n as usize);
                            proof {
                                self.lemma_after_remove_reserve(p, n as int, c);
                            }
                            self.fc.add_to_tableau(c, b as usize);
                            proof {
                                lemma_place_on_tableau_cards(
                                    p.fc.remove_from_reserve(n as int),
                                    c,
                                    b as int,
                                );
                                assert(self@ =~~= (SessionState {
                                    fc: p.fc.remove_from_reserve(n as int).place_on_tableau(
                                        c,
                                        b as int,
                                    ),
                                    ..p
                                }));
                            }
                            ActionOutcome::Moved
                        } else {
                            ActionOutcome::CannotMoveToTableau
                        }
                    }
                    None => ActionOutcome::ReserveEmpty,
                }
            }
            (Action::Slot(a), Action::Foundation) => {
                if self.fc.tableau(a as usize).len() > 0 {
                    let idx = self.fc.tableau(a as usize).len() - 1;
                    let c = self.fc.tableau(a as usize)[idx];
                    if self.fc.can_move_to_foundation(c) {
                        self.push_undo();
                        let ghost p = self@;
                        self.fc.pop_tableau(a as usize);
                        proof {
                            self.lemma_after_pop_tableau(p, a as int, c);
                        }
                        self.fc.add_to_foundation(c);
                        proof {
                            lemma_place_on_foundation_cards(p.fc.pop_from_tableau(a as int), c);
                            assert(self@ =~~= (SessionState {
                                fc: p.fc.pop_from_tableau(a as int).place_on_foundation(c),
                                ..p
                            }));
                        }
                        ActionOutcome::Moved
                    } else {
                        ActionOutcome::CannotMoveToFoundation
                    }
                } else {
                    ActionOutcome::TableauEmpty
                }
            }
            (Action::Slot(a), Action::Reserve) => self.move_to_reserve(a as usize),
            (Action::Slot(a), Action::Slot(b)) => {
                if a == b {
                    self.move_to_reserve(a as usize)
                } else if self.fc.tableau(a as usize).len() == 0 {
                    ActionOutcome::TableauEmpty
                } else {
                    self.move_tableau(a as usize, b as usize)
                }
            }
            _ => ActionOutcome::InvalidAction,
        }
    }

    /// After a reserve card is taken out, it is free and the board still
    /// lacks only that card.
    proof fn lemma_after_remove_reserve(&self, p: SessionState, n: int, c: Card)
        requires
            p.fc.wf(),
            p.fc.all_cards_present(),
            0 <= n < p.fc.reserve.len(),
            p.fc.reserve[n] == Some(c),
            self@.fc == p.fc.remove_from_reserve(n),
        ensures
            self@.fc.free_card(c),
            c.valid(),
            self@.fc.cards().insert(c) == p.fc.cards(),
    {
        broadcast use vstd::multiset::group_multiset_axioms;
        broadcast use vstd::multiset::group_multiset_properties;

        lemma_remove_from_reserve_cards(p.fc, n);
        lemma_full_deck_count(c);
        assert(self@.fc.cards().insert(c).count(c) == self@.fc.cards().count(c) + 1);
        assert(self@.fc.cards().count(c) == 0);
        lemma_missing_card_is_free(self@.fc, c);
    }

    /// After a column's top card is popped, it is free and the board still
    /// lacks only that card.
    proof fn lemma_after_pop_tableau(&self, p: SessionState, a: int, c: Card)
        requires
            p.fc.wf(),
            p.fc.all_cards_present(),
            0 <= a < p.fc.tableau.len(),
            p.fc.tableau[a].len() > 0,
            c == p.fc.tableau[a].last(),
            self@.fc == p.fc.pop_from_tableau(a),
        ensures
            self@.fc.free_card(c),
            c.valid(),
            self@.fc.cards().insert(c) == p.fc.cards(),
    {
        broadcast use vstd::multiset::group_multiset_axioms;
        broadcast use vstd::multiset::group_multiset_properties;

        lemma_pop_from_tableau_cards(p.fc, a);
        lemma_full_deck_count(c);
        assert(self@.fc.cards().insert(c).count(c) == self@.fc.cards().count(c) + 1);
        assert(self@.fc.cards().count(c) == 0);
        lemma_missing_card_is_free(self@.fc, c);
    }

    /// Moves the top card of column `a` to the lowest free reserve slot.
    fn move_to_reserve(&mut self, a: usize) -> (r: ActionOutcome)
        requires
            old(self)@.inv(),
            a < TABLEAU_SLOTS,
        ensures
            final(self)@.inv(),
            (final(self)@, r) == old(self)@.move_to_reserve_spec(a as int),
    {
        if self.fc.tableau(a).len() == 0 {
            return ActionOutcome::TableauEmpty;
        }
        if self.fc.reserve_free() {
            self.push_undo();
            let ghost p = self@;
            let c = self.fc.pop_tableau(a);
            proof {
                self.lemma_after_pop_tableau(p, a as int, c);
            }
            self.fc.add_to_reserve(c);
            proof {
                lemma_place_on_reserve_cards(p.fc.pop_from_tableau(a as int), c);
                assert(self@ =~~= (SessionState {
                    fc: p.fc.pop_from_tableau(a as int).place_on_reserve(c),
                    ..p
                }));
            }
            ActionOutcome::Moved
        } else {
            ActionOutcome::NoFreeReserve
        }
    }

    /// Moves cards from column `a` onto column `b`.
    fn move_tableau(&mut self, a: usize, b: usize) -> (r: ActionOutcome)
        requires
            old(self)@.inv(),
            a < TABLEAU_SLOTS,
            b < TABLEAU_SLOTS,
            a != b,
            old(self)@.fc.tableau[a as int].len() > 0,
        ensures
            final(self)@.inv(),
            (final(self)@, r) == old(self)@.move_tableau_spec(a as int, b as int),
    {
        let ghost col = self@.fc.tableau[a as int];
        if self.fc.tableau(b).len() > 0 {
            let bidx = self.fc.tableau(b).len() - 1;
            let top = self.fc.tableau(b)[bidx];
            let n = self.fc.tableau(a).len();
            let size = self.fc.group_size(a);
            let cap = self.fc.move_capacity(a, b);
            proof {
                crate::board::lemma_group_size_le_len(col);
                crate::board::lemma_column_len_le_deck(old(self)@.fc, a as int);
            }
            let mut i: usize = 1;
            let mut found = false;
            while !found && i <= size
                invariant
                    old(self)@.inv(),
                    1 <= i <= size + 1,
                    size == BoardState::group_size_spec(col),
                    size <= n,
                    n <= 52,
                    n == col.len(),
                    col == self@.fc.tableau[a as int],
                    *self == *old(self),
                    a < TABLEAU_SLOTS,
                    first_fit_from(col, top, 1, size as int) == first_fit_from(
                        col,
                        top,
                        i as int,
                        size as int,
                    ),
                    found ==> i <= size && col[n - i].can_top_spec(top)
                        && first_fit_from(col, top, 1, size as int) == i,
                decreases size + 1 - i + (if found { 0int } else { 1int }),
            {
                let c = self.fc.tableau(a)[n - i];
                if c.can_top(top) {
                    found = true;
                } else {
                    i += 1;
                }
            }
            if !found {
                proof {
                    assert(first_fit_from(col, top, 1, size as int) == -1);
                    assert(self@ =~~= old(self)@);
                }
                return ActionOutcome::CannotMove;
            }
            if i > cap {
                proof {
                    assert(self@ =~~= old(self)@);
                }
                return ActionOutcome::InsufficientCapacity;
            }
            self.push_undo();
            let ghost p = self@;
            self.fc.move_tableau_group(a, b, i);
            proof {
                lemma_move_group_cards(p.fc, a as int, b as int, i as int);
                assert(self@ =~~= (SessionState {
                    fc: p.fc.move_group(a as int, b as int, i as int),
                    ..p
                }));
            }
            ActionOutcome::Moved
        } else {
            self.push_undo();
            let ghost p = self@;
            let cap = self.fc.move_capacity(a, b);
            proof {
                crate::board::lemma_move_capacity_bounds(p.fc, a as int, b as int);
            }
            self.fc.move_tableau_group(a, b, cap);
            proof {
                lemma_move_group_cards(p.fc, a as int, b as int, cap as int);
                assert(self@ =~~= (SessionState {
                    fc: p.fc.move_group(a as int, b as int, cap as int),
                    ..p
                }));
            }
            ActionOutcome::Moved
        }
    }

    /// Performs one sweep batch of up to three safe cards; clears the
    /// pending-sweep flag when nothing was left to sweep. Returns whether
    /// any card moved.
    pub fn sweep_step(&mut self) -> (moved: bool)
        requires
            old(self)@.inv(),
        ensures
            final(self)@.inv(),
            (final(self)@, moved) == old(self)@.sweep_step_spec(),
    {
        if self.fc.sweep_step(3) {
            proof {
                assert(self@ =~~= old(self)@.sweep_step_spec().0);
            }
            true
        } else {
            self.try_sweep = false;
            proof {
                assert(self@ =~~= old(self)@.sweep_step_spec().0);
            }
            false
        }
    }

    /// One tick while the game runs: detects victory, else advances a
    /// pending sweep by one batch.
    pub fn tick(&mut self) -> (r: TickOutcome)
        requires
            old(self)@.inv(),
        ensures
            final(self)@.inv(),
            (final(self)@, r) == old(self)@.tick_spec(),
    {
        if self.fc.game_over() {
            self.game_won = true;
            proof {
                assert(self@ =~~= (SessionState { game_won: true, ..old(self)@ }));
            }
            TickOutcome::Won
        } else if self.try_sweep {
            if self.sweep_step() {
                TickOutcome::Swept
            } else {
                TickOutcome::Idle
            }
        } else {
            TickOutcome::Idle
        }
    }

    /// Folds the current game into the statistics, given its play time in
    /// seconds: called before a new game starts or the session ends.
    pub fn game_end(&mut self, play_time: u32)
        requires
            old(self)@.undo.len() > 0 ==> old(self)@.stats.games < u32::MAX,
            old(self)@.undo.len() > 0 && old(self)@.game_won ==> old(self)@.stats.won < u32::MAX
                && old(self)@.stats.total_time + play_time <= u32::MAX
                && old(self)@.stats.current_streak < u32::MAX,
        ensures
            final(self)@ == (SessionState {
                stats: old(self)@.game_end_spec(play_time),
                ..old(self)@
            }),
            old(self)@.inv() ==> final(self)@.inv(),
    {
        if !self.undo.is_empty() {
            self.stats.games = self.stats.games + 1;
            if self.game_won {
                self.stats.won = self.stats.won + 1;
                let t = play_time;
                if self.stats.lowest_time == 0 {
                    self.stats.lowest_time = t;
                } else if t <= self.stats.lowest_time {
                    self.stats.lowest_time = t;
                }
                if t >= self.stats.highest_time {
                    self.stats.highest_time = t;
                }
                self.stats.total_time = self.stats.total_time + t;
                self.stats.current_streak = self.stats.current_streak + 1;
                if self.stats.current_streak >= self.stats.longest_streak {
                    self.stats.longest_streak = self.stats.current_streak;
                }
            } else {
                self.stats.current_streak = 0;
            }
        }
        proof {
            assert(self@ =~~= (SessionState {
                stats: old(self)@.game_end_spec(play_time),
                ..old(self)@
            }));
        }
    }

    /// Starts a fresh game over a newly shuffled board: history, selection
    /// and flags cleared, statistics untouched (fold the old game in with
    /// `game_end` first).
    pub fn new_game(&mut self)
        ensures
            final(self)@.inv(),
            final(self)@.stats == old(self)@.stats,
            final(self)@.undo.len() == 0,
            final(self)@.undo_index == 0,
            final(self)@.action is None,
            final(self)@.locate is None,
            !final(self)@.game_won,
            final(self)@.try_sweep,
            forall|i: int| 0 <= i < RESERVE_SLOTS
                ==> (#[trigger] final(self)@.fc.reserve[i]) is None,
            forall|i: int| 0 <= i < FOUNDATION_SLOTS
                ==> (#[trigger] final(self)@.fc.foundation[i]) is None,
            forall|j: int| 0 <= j < TABLEAU_SLOTS
                ==> 52 <= 8 * (#[trigger] final(self)@.fc.tableau[j]).len() + j < 60,
    {
        self.action = None;
        self.locate = None;
        self.game_won = false;
        self.undo.clear();
        self.undo_index = 0;
        self.fc = FreeCell::new();
        self.try_sweep = true;
    }

    /// Whether a card lights up under the current locate query.
    pub fn highlight_card(&self, card: Card) -> (r: bool)
        requires
            self@.fc.foundation.len() == FOUNDATION_SLOTS,
        ensures
            r == self@.highlight_card_spec(card),
    {
        match self.locate {
            None => false,
            Some(loc) => {
                let match_color = match loc.color {
                    None => true,
                    Some(c) => card.suit.color() == c,
                };
                let match_what = match loc.what {
                    Match::Nothing => false,
                    Match::Low => self.fc.can_move_to_foundation(card),
                    Match::Value(n) => card.value.0 == n,
                };
                match_color && match_what
            }
        }
    }

    /// Whether a foundation top lights up under the current locate query.
    pub fn highlight_foundation(&self, top: Card) -> (r: bool)
        ensures
            r == self@.highlight_foundation_spec(top),
    {
        match self.locate {
            None => false,
            Some(loc) => {
                let match_color = match loc.color {
                    None => true,
                    Some(c) => top.suit.color() == c,
                };
                let match_what = match loc.what {
                    Match::Nothing => false,
                    Match::Low => false,
                    Match::Value(n) => n <= top.value.0,
                };
                match_color && match_what
            }
        }
    }

    /// The status line for the pending selection.
    pub fn action_str(&self) -> (r: String)
        requires
            self@.action_wf(),
        ensures
            r@ == self@.action_str_spec(),
    {
        match self.action {
            Some(Action::Reserve) => {
                let r = String::from_str("R");
                proof {
                    reveal_strlit("R");
                    assert(r@ =~= self@.action_str_spec());
                }
                r
            }
            Some(Action::ReserveSlot(n)) => {
                let r = match n {
                    0 => String::from_str("R A"),
                    1 => String::from_str("R S"),
                    2 => String::from_str("R D"),
                    _ => String::from_str("R F"),
                };
                proof {
                    reveal_strlit("R A");
                    reveal_strlit("R S");
                    reveal_strlit("R D");
                    reveal_strlit("R F");
                    assert(r@ =~= self@.action_str_spec());
                }
                r
            }
            Some(Action::Slot(n)) => {
                let r = match n {
                    0 => String::from_str("A"),
                    1 => String::from_str("S"),
                    2 => String::from_str("D"),
                    3 => String::from_str("F"),
                    4 => String::from_str("G"),
                    5 => String::from_str("H"),
                    6 => String::from_str("J"),
                    _ => String::from_str("K"),
                };
                proof {
                    reveal_strlit("A");
                    reveal_strlit("S");
                    reveal_strlit("D");
                    reveal_strlit("F");
                    reveal_strlit("G");
                    reveal_strlit("H");
                    reveal_strlit("J");
                    reveal_strlit("K");
                    assert(r@ =~= self@.action_str_spec());
                }
                r
            }
            _ => {
                let r = String::from_str("");
                proof {
                    reveal_strlit("");
                    assert(r@ =~= self@.action_str_spec());
                }
                r
            }
        }
    }

    /// Abandons the pending selection.
    pub fn clear_action(&mut self)
        ensures
            final(self)@ == (SessionState { action: None, ..old(self)@ }),
            old(self)@.inv() ==> final(self)@.inv(),
    {
        self.action = None;
        proof {
            assert(self@ =~~= (SessionState { action: None, ..old(self)@ }));
        }
    }
}

} // verus!
