use freecell::card::{Card, Color, Face, Suit};
use freecell::session::{Action, ActionOutcome, FreeCellGame, Locate, Match, TickOutcome, UndoOutcome};

fn card(suit: Suit, value: u8) -> Card {
    Card::new(suit, Face(value))
}

fn full_set() -> Vec<Card> {
    let suits = [Suit::Club, Suit::Diamond, Suit::Heart, Suit::Spade];
    let mut deck = Vec::new();
    for &s in &suits {
        for v in 1..=13 {
            deck.push(card(s, v));
        }
    }
    deck
}

fn canonical_cols() -> Vec<Vec<Card>> {
    let mut cols = vec![Vec::new(); 8];
    for (i, c) in full_set().into_iter().enumerate() {
        cols[i % 8].push(c);
    }
    cols
}

fn pin(cols: &mut Vec<Vec<Card>>, c: Card, col: usize, idx: usize) {
    let mut from = None;
    for j in 0..8 {
        for k in 0..cols[j].len() {
            if cols[j][k] == c {
                from = Some((j, k));
            }
        }
    }
    let (fj, fk) = from.expect("card not found");
    let displaced = cols[col][idx];
    cols[col][idx] = c;
    cols[fj][fk] = displaced;
}

fn deck_from_cols(cols: &Vec<Vec<Card>>) -> Vec<Card> {
    let mut deck = Vec::new();
    for k in 0..7 {
        for j in 0..8 {
            if k < cols[j].len() {
                deck.push(cols[j][k]);
            }
        }
    }
    deck
}

// The canonical deal puts all-spade tops on every column:
// 10, J, Q, K on columns 0-3 and 6, 7, 8, 9 on columns 4-7.

#[test]
fn foundation_alone_is_not_a_source() {
    let mut g = FreeCellGame::from_deck(full_set());
    assert_eq!(g.action(Action::Foundation), ActionOutcome::InvalidAction);
    assert!(g.pending_action().is_none());
}

#[test]
fn selecting_a_column_remembers_it_and_cancel_clears_it() {
    let mut g = FreeCellGame::from_deck(full_set());
    assert_eq!(g.action(Action::Slot(0)), ActionOutcome::Selected);
    assert_eq!(g.pending_action(), Some(Action::Slot(0)));
    assert_eq!(g.action_str(), "A");
    g.clear_action();
    assert!(g.pending_action().is_none());
    assert_eq!(g.action_str(), "");
}

#[test]
fn reserve_selection_outcomes() {
    let mut g = FreeCellGame::from_deck(full_set());
    // an empty reserve slot cannot be a source
    assert_eq!(g.action(Action::Reserve), ActionOutcome::Selected);
    assert_eq!(g.action_str(), "R");
    assert_eq!(g.action(Action::Slot(0)), ActionOutcome::ReserveEmpty);
    assert!(g.pending_action().is_none());
    // only the first four slot keys name a reserve slot
    assert_eq!(g.action(Action::Reserve), ActionOutcome::Selected);
    assert_eq!(g.action(Action::Slot(5)), ActionOutcome::InvalidReserveSlot);
    // a reserve-foundation pair with nothing selected in between
    assert_eq!(g.action(Action::Reserve), ActionOutcome::Selected);
    assert_eq!(g.action(Action::Foundation), ActionOutcome::InvalidAction);
}

#[test]
fn moving_to_reserve_and_back_out() {
    let mut g = FreeCellGame::from_deck(full_set());
    // column 0's top (spade 10) goes to the first reserve slot
    assert_eq!(g.action(Action::Slot(0)), ActionOutcome::Selected);
    assert_eq!(g.action(Action::Reserve), ActionOutcome::Moved);
    assert_eq!(g.board().reserve(0), Some(card(Suit::Spade, 10)));
    assert_eq!(g.board().tableau(0).len(), 6);
    // it cannot come back onto the spade Jack
    assert_eq!(g.action(Action::Reserve), ActionOutcome::Selected);
    assert_eq!(g.action(Action::Slot(0)), ActionOutcome::Selected);
    assert_eq!(g.action_str(), "R A");
    assert_eq!(g.action(Action::Slot(1)), ActionOutcome::CannotMoveToTableau);
    assert_eq!(g.board().reserve(0), Some(card(Suit::Spade, 10)));
}

#[test]
fn pressing_a_column_twice_moves_its_top_to_reserve() {
    let mut g = FreeCellGame::from_deck(full_set());
    assert_eq!(g.action(Action::Slot(3)), ActionOutcome::Selected);
    assert_eq!(g.action(Action::Slot(3)), ActionOutcome::Moved);
    assert_eq!(g.board().reserve(0), Some(card(Suit::Spade, 13)));
}

#[test]
fn a_full_reserve_refuses_more() {
    let mut g = FreeCellGame::from_deck(full_set());
    for col in 0..4 {
        assert_eq!(g.action(Action::Slot(col)), ActionOutcome::Selected);
        assert_eq!(g.action(Action::Reserve), ActionOutcome::Moved);
    }
    assert_eq!(g.action(Action::Slot(4)), ActionOutcome::Selected);
    assert_eq!(g.action(Action::Reserve), ActionOutcome::NoFreeReserve);
}

#[test]
fn foundation_refuses_a_card_that_does_not_follow() {
    let mut g = FreeCellGame::from_deck(full_set());
    assert_eq!(g.action(Action::Slot(0)), ActionOutcome::Selected);
    assert_eq!(g.action(Action::Foundation), ActionOutcome::CannotMoveToFoundation);
    assert_eq!(g.board().tableau(0).len(), 7);
}

#[test]
fn tableau_move_outcomes() {
    let mut g = FreeCellGame::from_deck(full_set());
    // all tops are spades: nothing stacks on anything
    assert_eq!(g.action(Action::Slot(4)), ActionOutcome::Selected);
    assert_eq!(g.action(Action::Slot(5)), ActionOutcome::CannotMove);

    // a legal single-card move: heart 6 onto spade 7
    let mut cols = canonical_cols();
    pin(&mut cols, card(Suit::Heart, 6), 4, 5);
    assert_eq!(cols[4][5], card(Suit::Heart, 6));
    assert_eq!(cols[5][5], card(Suit::Spade, 7));
    let mut g = FreeCellGame::from_deck(deck_from_cols(&cols));
    assert_eq!(g.action(Action::Slot(4)), ActionOutcome::Selected);
    assert_eq!(g.action(Action::Slot(5)), ActionOutcome::Moved);
    let n = g.board().tableau(5).len();
    assert_eq!(g.board().tableau(5)[n - 1], card(Suit::Heart, 6));
}

#[test]
fn a_supermove_needs_the_capacity() {
    // col 2 ends with heart 7, spade 6; col 3's top is spade 8: only the
    // pair fits, but with a full reserve the capacity is one card.
    let mut cols = canonical_cols();
    pin(&mut cols, card(Suit::Heart, 7), 2, 5);
    pin(&mut cols, card(Suit::Spade, 6), 2, 6);
    pin(&mut cols, card(Suit::Spade, 8), 3, 6);
    assert_eq!(cols[2][5], card(Suit::Heart, 7));
    assert_eq!(cols[2][6], card(Suit::Spade, 6));
    assert_eq!(cols[3][6], card(Suit::Spade, 8));
    let mut g = FreeCellGame::from_deck(deck_from_cols(&cols));
    for col in 4..8 {
        assert_eq!(g.action(Action::Slot(col)), ActionOutcome::Selected);
        assert_eq!(g.action(Action::Reserve), ActionOutcome::Moved);
    }
    assert_eq!(g.action(Action::Slot(2)), ActionOutcome::Selected);
    assert_eq!(g.action(Action::Slot(3)), ActionOutcome::InsufficientCapacity);
    assert_eq!(g.board().tableau(2).len(), 7);
    assert_eq!(g.board().tableau(3).len(), 7);
}

#[test]
fn undo_and_redo_edges() {
    let mut g = FreeCellGame::from_deck(full_set());
    assert_eq!(g.undo(), UndoOutcome::NoChanges);
    assert_eq!(g.redo(), UndoOutcome::NoChanges);

    let before: Vec<Vec<Card>> = (0..8).map(|j| g.board().tableau(j).to_vec()).collect();
    assert_eq!(g.action(Action::Slot(0)), ActionOutcome::Selected);
    assert_eq!(g.action(Action::Reserve), ActionOutcome::Moved);
    let after: Vec<Vec<Card>> = (0..8).map(|j| g.board().tableau(j).to_vec()).collect();

    assert_eq!(g.redo(), UndoOutcome::AtNewestState);
    assert_eq!(g.undo(), UndoOutcome::Done);
    let restored: Vec<Vec<Card>> = (0..8).map(|j| g.board().tableau(j).to_vec()).collect();
    assert_eq!(restored, before);
    assert!(g.board().reserve(0).is_none());

    assert_eq!(g.undo(), UndoOutcome::AtInitialState);
    assert_eq!(g.redo(), UndoOutcome::Done);
    let redone: Vec<Vec<Card>> = (0..8).map(|j| g.board().tableau(j).to_vec()).collect();
    assert_eq!(redone, after);
    assert_eq!(g.board().reserve(0), Some(card(Suit::Spade, 10)));
}

#[test]
fn a_new_move_discards_the_redo_branch() {
    let mut g = FreeCellGame::from_deck(full_set());
    assert_eq!(g.action(Action::Slot(0)), ActionOutcome::Selected);
    assert_eq!(g.action(Action::Reserve), ActionOutcome::Moved);
    assert_eq!(g.action(Action::Slot(1)), ActionOutcome::Selected);
    assert_eq!(g.action(Action::Reserve), ActionOutcome::Moved);
    assert_eq!(g.undo(), UndoOutcome::Done);
    // a different move forks the history here
    assert_eq!(g.action(Action::Slot(2)), ActionOutcome::Selected);
    assert_eq!(g.action(Action::Reserve), ActionOutcome::Moved);
    assert_eq!(g.redo(), UndoOutcome::AtNewestState);
    assert_eq!(g.board().reserve(1), Some(card(Suit::Spade, 12)));
}

#[test]
fn an_emptied_column_cannot_be_selected() {
    // column 7 carries the Aces over a movable pair; column 6 takes the pair
    let mut cols = canonical_cols();
    pin(&mut cols, card(Suit::Diamond, 5), 7, 0);
    pin(&mut cols, card(Suit::Spade, 4), 7, 1);
    pin(&mut cols, card(Suit::Club, 1), 7, 2);
    pin(&mut cols, card(Suit::Diamond, 1), 7, 3);
    pin(&mut cols, card(Suit::Heart, 1), 7, 4);
    pin(&mut cols, card(Suit::Spade, 1), 7, 5);
    pin(&mut cols, card(Suit::Spade, 6), 6, 5);
    assert_eq!(cols[7][5], card(Suit::Spade, 1));
    assert_eq!(cols[6][5], card(Suit::Spade, 6));

    let mut g = FreeCellGame::from_deck(deck_from_cols(&cols));
    for _ in 0..4 {
        assert_eq!(g.action(Action::Slot(7)), ActionOutcome::Selected);
        assert_eq!(g.action(Action::Foundation), ActionOutcome::Moved);
    }
    assert_eq!(g.action(Action::Slot(7)), ActionOutcome::Selected);
    assert_eq!(g.action(Action::Slot(6)), ActionOutcome::Moved);
    assert_eq!(g.board().tableau(7).len(), 0);
    assert_eq!(g.action(Action::Slot(7)), ActionOutcome::TableauEmpty);
    assert!(g.pending_action().is_none());
}

#[test]
fn a_fresh_session_deals_a_full_board() {
    let g = FreeCellGame::new();
    let mut total = 0;
    for j in 0..8 {
        total += g.board().tableau(j).len();
    }
    assert_eq!(total, 52);
    assert_eq!(g.stats().games, 0);
    assert_eq!(g.undo_count(), 0);
    assert_eq!(g.undo_index(), 0);
    assert!(g.try_sweep());
    assert!(!g.game_won());
}

#[test]
fn a_tick_with_nothing_to_sweep_goes_idle() {
    // the canonical deal has only spade tops: nothing can sweep
    let mut g = FreeCellGame::from_deck(full_set());
    assert!(g.try_sweep());
    assert_eq!(g.tick(), TickOutcome::Idle);
    assert!(!g.try_sweep());
    assert_eq!(g.tick(), TickOutcome::Idle);
}

#[test]
fn undo_and_redo_rearm_the_sweep() {
    let mut g = FreeCellGame::from_deck(full_set());
    // nothing on the canonical deal can sweep, so a tick clears the flag
    assert_eq!(g.tick(), TickOutcome::Idle);
    assert!(!g.try_sweep());
    assert_eq!(g.action(Action::Slot(0)), ActionOutcome::Selected);
    assert_eq!(g.action(Action::Reserve), ActionOutcome::Moved);
    assert!(g.try_sweep());
    assert_eq!(g.tick(), TickOutcome::Idle);
    assert!(!g.try_sweep());
    // sweeps are not recorded in the history: they replay after an undo
    assert_eq!(g.undo(), UndoOutcome::Done);
    assert!(g.try_sweep());
    assert_eq!(g.tick(), TickOutcome::Idle);
    assert!(!g.try_sweep());
    // and after a redo, whichever branch it takes
    assert_eq!(g.redo(), UndoOutcome::Done);
    assert!(g.try_sweep());
}

#[test]
fn game_end_without_moves_counts_nothing() {
    let mut g = FreeCellGame::from_deck(full_set());
    g.game_end(100);
    assert_eq!(g.stats().games, 0);
}

#[test]
fn game_end_of_a_lost_game_ends_the_streak() {
    let mut g = FreeCellGame::from_deck(full_set());
    let mut s = g.stats();
    s.current_streak = 3;
    s.longest_streak = 3;
    s.games = 7;
    g.set_stats(s);
    assert_eq!(g.action(Action::Slot(0)), ActionOutcome::Selected);
    assert_eq!(g.action(Action::Reserve), ActionOutcome::Moved);
    g.game_end(55);
    assert_eq!(g.stats().games, 8);
    assert_eq!(g.stats().won, 0);
    assert_eq!(g.stats().current_streak, 0);
    assert_eq!(g.stats().longest_streak, 3);
    assert_eq!(g.stats().total_time, 0);
}

#[test]
fn locate_highlights_by_color_and_value() {
    let mut g = FreeCellGame::from_deck(full_set());
    assert!(!g.highlight_card(card(Suit::Heart, 4)));
    g.begin_locate();
    assert_eq!(g.locate().map(|l| l.what), Some(Match::Nothing));
    // matching nothing highlights nothing
    assert!(!g.highlight_card(card(Suit::Heart, 4)));
    g.set_locate(Some(Locate { color: Some(Color::Red), what: Match::Value(4) }));
    assert!(g.highlight_card(card(Suit::Heart, 4)));
    assert!(g.highlight_card(card(Suit::Diamond, 4)));
    assert!(!g.highlight_card(card(Suit::Spade, 4)));
    assert!(!g.highlight_card(card(Suit::Heart, 5)));
    // low cards are the ones a foundation would take now: the aces
    g.set_locate(Some(Locate { color: None, what: Match::Low }));
    assert!(g.highlight_card(card(Suit::Heart, 1)));
    assert!(!g.highlight_card(card(Suit::Heart, 2)));
    // a foundation pile lights up when the sought value is buried in it
    g.set_locate(Some(Locate { color: None, what: Match::Value(3) }));
    assert!(g.highlight_foundation(card(Suit::Heart, 5)));
    assert!(!g.highlight_foundation(card(Suit::Heart, 2)));
    g.set_locate(None);
    assert!(g.locate().is_none());
}

#[test]
fn new_game_resets_the_table_but_keeps_stats() {
    let mut g = FreeCellGame::from_deck(full_set());
    let mut s = g.stats();
    s.games = 5;
    g.set_stats(s);
    assert_eq!(g.action(Action::Slot(0)), ActionOutcome::Selected);
    assert_eq!(g.action(Action::Reserve), ActionOutcome::Moved);
    g.new_game();
    assert_eq!(g.stats().games, 5);
    assert_eq!(g.undo_count(), 0);
    assert!(g.pending_action().is_none());
    assert!(!g.game_won());
    assert!(g.try_sweep());
    assert_eq!(g.undo(), UndoOutcome::NoChanges);
    let mut total = 0;
    for j in 0..8 {
        total += g.board().tableau(j).len();
    }
    assert_eq!(total, 52);
}
