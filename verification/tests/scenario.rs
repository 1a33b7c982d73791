use freecell::board::FreeCell;
use freecell::card::{Card, Face, Suit};
use freecell::session::{Action, ActionOutcome, FreeCellGame, TickOutcome, UndoOutcome};

fn card(suit: Suit, value: u8) -> Card {
    Card::new(suit, Face(value))
}

fn full_set() -> Vec<Card> {
    let suits = [Suit::Club, Suit::Diamond, Suit::Heart, Suit::Spade];
    let mut deck = Vec::new();
    for &s in &suits {
        for v in 1..=13 {
            deck.push(card(s, v));
        }
    }
    deck
}

fn canonical_cols() -> Vec<Vec<Card>> {
    let mut cols = vec![Vec::new(); 8];
    for (i, c) in full_set().into_iter().enumerate() {
        cols[i % 8].push(c);
    }
    cols
}

fn pin(cols: &mut Vec<Vec<Card>>, c: Card, col: usize, idx: usize) {
    let mut from = None;
    for j in 0..8 {
        for k in 0..cols[j].len() {
            if cols[j][k] == c {
                from = Some((j, k));
            }
        }
    }
    let (fj, fk) = from.expect("card not found");
    let displaced = cols[col][idx];
    cols[col][idx] = c;
    cols[fj][fk] = displaced;
}

fn deck_from_cols(cols: &Vec<Vec<Card>>) -> Vec<Card> {
    let mut deck = Vec::new();
    for k in 0..7 {
        for j in 0..8 {
            if k < cols[j].len() {
                deck.push(cols[j][k]);
            }
        }
    }
    deck
}

fn zones(g: &FreeCellGame) -> (Vec<Option<Card>>, Vec<Option<Card>>, Vec<Vec<Card>>) {
    let b = g.board();
    (
        b.reserve_slots().to_vec(),
        b.foundation_slots().to_vec(),
        (0..8).map(|j| b.tableau(j).to_vec()).collect(),
    )
}

/// Five scripted legal moves from a fixed deal, then five undos, leave the
/// board exactly as dealt.
#[test]
fn five_moves_and_five_undos_restore_the_deal() {
    // Column 7 carries the four Aces on top so foundation moves are legal.
    let mut cols = canonical_cols();
    pin(&mut cols, card(Suit::Club, 1), 7, 2);
    pin(&mut cols, card(Suit::Diamond, 1), 7, 3);
    pin(&mut cols, card(Suit::Heart, 1), 7, 4);
    pin(&mut cols, card(Suit::Spade, 1), 7, 5);
    assert_eq!(cols[7][2], card(Suit::Club, 1));
    assert_eq!(cols[7][5], card(Suit::Spade, 1));

    let mut g = FreeCellGame::from_deck(deck_from_cols(&cols));
    let initial = zones(&g);

    // four foundation moves and one reserve move
    for _ in 0..2 {
        assert_eq!(g.action(Action::Slot(7)), ActionOutcome::Selected);
        assert_eq!(g.action(Action::Foundation), ActionOutcome::Moved);
    }
    assert_eq!(g.action(Action::Slot(0)), ActionOutcome::Selected);
    assert_eq!(g.action(Action::Reserve), ActionOutcome::Moved);
    for _ in 0..2 {
        assert_eq!(g.action(Action::Slot(7)), ActionOutcome::Selected);
        assert_eq!(g.action(Action::Foundation), ActionOutcome::Moved);
    }
    assert_ne!(zones(&g), initial);
    assert_eq!(g.undo_count(), 5);

    for _ in 0..5 {
        assert_eq!(g.undo(), UndoOutcome::Done);
    }
    assert_eq!(zones(&g), initial);
    assert_eq!(g.undo(), UndoOutcome::AtInitialState);
}

/// With the four Aces on the tableau tops, repeated sweep batches move
/// exactly four cards, three in the first batch by the cap and one in the
/// second.
#[test]
fn sweep_batches_respect_the_cap() {
    let mut cols = canonical_cols();
    // aces on the tops of the first four columns
    pin(&mut cols, card(Suit::Club, 1), 0, 6);
    pin(&mut cols, card(Suit::Diamond, 1), 1, 6);
    pin(&mut cols, card(Suit::Heart, 1), 2, 6);
    pin(&mut cols, card(Suit::Spade, 1), 3, 6);
    // keep twos away from the surface so only the aces sweep
    pin(&mut cols, card(Suit::Club, 13), 0, 5);
    pin(&mut cols, card(Suit::Diamond, 13), 1, 5);
    pin(&mut cols, card(Suit::Heart, 13), 2, 5);
    pin(&mut cols, card(Suit::Spade, 13), 3, 5);
    pin(&mut cols, card(Suit::Club, 9), 4, 5);
    pin(&mut cols, card(Suit::Diamond, 9), 5, 5);
    pin(&mut cols, card(Suit::Heart, 9), 6, 5);
    pin(&mut cols, card(Suit::Spade, 9), 7, 5);
    for j in 0..4 {
        assert_eq!(cols[j][6].value.0, 1);
        assert_eq!(cols[j][5].value.0, 13);
        assert_eq!(cols[j + 4][5].value.0, 9);
    }

    let mut fc = FreeCell::from_deck(deck_from_cols(&cols));
    assert!(fc.sweep_step(3));
    let placed: usize = fc.foundation_slots().iter().filter(|f| f.is_some()).count();
    assert_eq!(placed, 3);
    assert!(fc.sweep_step(3));
    let placed: usize = fc.foundation_slots().iter().filter(|f| f.is_some()).count();
    assert_eq!(placed, 4);
    for f in fc.foundation_slots() {
        assert_eq!(f.map(|c| c.value.0), Some(1));
    }
    assert!(!fc.sweep_step(3));
}

/// A deal whose columns are single-suit descending runs sweeps itself out
/// completely, one tick at a time, and the win is detected and counted.
#[test]
fn a_self_sweeping_deal_is_won_and_counted() {
    // descending rank-major order: the Aces land on the tableau tops and
    // every rank surfaces as the foundations catch up
    let suits = [Suit::Club, Suit::Diamond, Suit::Heart, Suit::Spade];
    let mut deck = Vec::new();
    for r in (1..=13).rev() {
        for &s in &suits {
            deck.push(card(s, r));
        }
    }
    let mut g = FreeCellGame::from_deck(deck);

    // one recorded move, so the game will count in the statistics
    assert_eq!(g.action(Action::Slot(0)), ActionOutcome::Selected);
    assert_eq!(g.action(Action::Reserve), ActionOutcome::Moved);

    let mut won = false;
    for _ in 0..100 {
        match g.tick() {
            TickOutcome::Won => {
                won = true;
                break;
            }
            TickOutcome::Swept | TickOutcome::Idle => {}
        }
    }
    assert!(won);
    assert!(g.game_won());
    assert!(g.board().game_over());
    for f in g.board().foundation_slots() {
        assert_eq!(f.map(|c| c.value.0), Some(13));
    }

    g.game_end(125);
    let s = g.stats();
    assert_eq!(s.games, 1);
    assert_eq!(s.won, 1);
    assert_eq!(s.lowest_time, 125);
    assert_eq!(s.highest_time, 125);
    assert_eq!(s.total_time, 125);
    assert_eq!(s.current_streak, 1);
    assert_eq!(s.longest_streak, 1);
    assert_eq!(s.win_rate(), 100);
    assert_eq!(s.average_time(), 125);
}
