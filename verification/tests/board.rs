use freecell::board::FreeCell;
use freecell::card::{Card, Face, Suit};

fn card(suit: Suit, value: u8) -> Card {
    Card::new(suit, Face(value))
}

/// All 52 cards, suit-major, Ace to King.
fn full_set() -> Vec<Card> {
    let suits = [Suit::Club, Suit::Diamond, Suit::Heart, Suit::Spade];
    let mut deck = Vec::new();
    for &s in &suits {
        for v in 1..=13 {
            deck.push(card(s, v));
        }
    }
    deck
}

/// The columns a round-robin deal of `full_set` produces.
fn canonical_cols() -> Vec<Vec<Card>> {
    let mut cols = vec![Vec::new(); 8];
    for (i, c) in full_set().into_iter().enumerate() {
        cols[i % 8].push(c);
    }
    cols
}

/// Swaps `c` into position `idx` of column `col`.
fn pin(cols: &mut Vec<Vec<Card>>, c: Card, col: usize, idx: usize) {
    let mut from = None;
    for j in 0..8 {
        for k in 0..cols[j].len() {
            if cols[j][k] == c {
                from = Some((j, k));
            }
        }
    }
    let (fj, fk) = from.expect("card not found");
    let displaced = cols[col][idx];
    cols[col][idx] = c;
    cols[fj][fk] = displaced;
}

fn pin_top(cols: &mut Vec<Vec<Card>>, c: Card, col: usize) {
    let idx = cols[col].len() - 1;
    pin(cols, c, col, idx);
}

/// Interleaves columns back into the deck order that deals them.
fn deck_from_cols(cols: &Vec<Vec<Card>>) -> Vec<Card> {
    let mut deck = Vec::new();
    for k in 0..7 {
        for j in 0..8 {
            if k < cols[j].len() {
                deck.push(cols[j][k]);
            }
        }
    }
    deck
}

#[test]
fn deal_is_round_robin() {
    let deck = full_set();
    let fc = FreeCell::from_deck(deck.clone());
    for j in 0..4 {
        assert_eq!(fc.tableau(j).len(), 7);
    }
    for j in 4..8 {
        assert_eq!(fc.tableau(j).len(), 6);
    }
    for j in 0..8 {
        for k in 0..fc.tableau(j).len() {
            assert_eq!(fc.tableau(j)[k], deck[k * 8 + j]);
        }
    }
    for i in 0..4 {
        assert!(fc.reserve(i).is_none());
    }
    for f in fc.foundation_slots() {
        assert!(f.is_none());
    }
}

#[test]
fn new_deals_all_52_cards() {
    let fc = FreeCell::new();
    let mut seen: Vec<Card> = Vec::new();
    for j in 0..8 {
        seen.extend_from_slice(fc.tableau(j));
    }
    assert_eq!(seen.len(), 52);
    for c in full_set() {
        assert_eq!(seen.iter().filter(|&&x| x == c).count(), 1, "missing {:?}", c);
    }
    assert!(fc.reserve_slots().iter().all(|r| r.is_none()));
    assert!(fc.foundation_slots().iter().all(|f| f.is_none()));
    assert!(!fc.game_over());
}

#[test]
fn group_size_counts_the_descending_alternating_run() {
    let mut cols = canonical_cols();
    // col 0 top three: 7s, 6d, 5s stacked correctly -> group of 3
    pin(&mut cols, card(Suit::Spade, 7), 0, 4);
    pin(&mut cols, card(Suit::Diamond, 6), 0, 5);
    pin(&mut cols, card(Suit::Spade, 5), 0, 6);
    // col 1 top three: 7c, 6s, 5d; the same-color pair breaks the run at 2
    pin(&mut cols, card(Suit::Club, 7), 1, 4);
    pin(&mut cols, card(Suit::Spade, 6), 1, 5);
    pin(&mut cols, card(Suit::Diamond, 5), 1, 6);
    assert_eq!(cols[0][4], card(Suit::Spade, 7));
    assert_eq!(cols[0][5], card(Suit::Diamond, 6));
    assert_eq!(cols[0][6], card(Suit::Spade, 5));
    assert_eq!(cols[1][4], card(Suit::Club, 7));
    assert_eq!(cols[1][5], card(Suit::Spade, 6));
    assert_eq!(cols[1][6], card(Suit::Diamond, 5));

    let fc = FreeCell::from_deck(deck_from_cols(&cols));
    assert_eq!(fc.group_size(0), 3);
    assert_eq!(fc.group_size(1), 2);
}

#[test]
fn reserve_fills_lowest_slot_and_empties_on_remove() {
    let mut fc = FreeCell::from_deck(full_set());
    assert!(fc.reserve_free());
    let a = fc.pop_tableau(0);
    fc.add_to_reserve(a);
    assert_eq!(fc.reserve(0), Some(a));
    let b = fc.pop_tableau(1);
    fc.add_to_reserve(b);
    assert_eq!(fc.reserve(1), Some(b));
    let got = fc.remove_reserve(0);
    assert_eq!(got, a);
    assert!(fc.reserve(0).is_none());
    // the freed low slot is reused first
    let c = fc.pop_tableau(2);
    fc.add_to_reserve(c);
    assert_eq!(fc.reserve(0), Some(c));
}

#[test]
fn move_tableau_group_keeps_order_and_reverses_exactly() {
    let mut cols = canonical_cols();
    // col 0 ends with 9s, 8d, 7s; col 1 ends with 10d
    pin(&mut cols, card(Suit::Spade, 9), 0, 4);
    pin(&mut cols, card(Suit::Diamond, 8), 0, 5);
    pin(&mut cols, card(Suit::Spade, 7), 0, 6);
    pin_top(&mut cols, card(Suit::Diamond, 10), 1);
    assert_eq!(cols[0][4], card(Suit::Spade, 9));
    assert_eq!(cols[0][6], card(Suit::Spade, 7));
    assert_eq!(cols[1][6], card(Suit::Diamond, 10));

    let mut fc = FreeCell::from_deck(deck_from_cols(&cols));
    let col0_before: Vec<Card> = fc.tableau(0).to_vec();
    let col1_before: Vec<Card> = fc.tableau(1).to_vec();
    assert_eq!(fc.group_size(0), 3);

    fc.move_tableau_group(0, 1, 3);
    assert_eq!(fc.tableau(0).len(), 4);
    assert_eq!(fc.tableau(1).len(), 10);
    // order preserved: ..., 10d, 9s, 8d, 7s
    let n = fc.tableau(1).len();
    assert_eq!(fc.tableau(1)[n - 3], card(Suit::Spade, 9));
    assert_eq!(fc.tableau(1)[n - 2], card(Suit::Diamond, 8));
    assert_eq!(fc.tableau(1)[n - 1], card(Suit::Spade, 7));

    fc.move_tableau_group(1, 0, 3);
    assert_eq!(fc.tableau(0), &col0_before[..]);
    assert_eq!(fc.tableau(1), &col1_before[..]);
}

#[test]
fn move_capacity_counts_free_reserve_and_empty_columns() {
    // Column 7 holds the four Aces atop a movable pair, so it can be
    // emptied; column 6's top takes that pair.
    let mut cols = canonical_cols();
    pin(&mut cols, card(Suit::Diamond, 5), 7, 0);
    pin(&mut cols, card(Suit::Spade, 4), 7, 1);
    pin(&mut cols, card(Suit::Club, 1), 7, 2);
    pin(&mut cols, card(Suit::Diamond, 1), 7, 3);
    pin(&mut cols, card(Suit::Heart, 1), 7, 4);
    pin(&mut cols, card(Suit::Spade, 1), 7, 5);
    pin_top(&mut cols, card(Suit::Spade, 6), 6);
    // col 2 ends with 10s, 9h and a neutral card beneath
    pin(&mut cols, card(Suit::Club, 3), 2, 4);
    pin(&mut cols, card(Suit::Spade, 10), 2, 5);
    pin(&mut cols, card(Suit::Heart, 9), 2, 6);
    assert_eq!(cols[7], vec![
        card(Suit::Diamond, 5),
        card(Suit::Spade, 4),
        card(Suit::Club, 1),
        card(Suit::Diamond, 1),
        card(Suit::Heart, 1),
        card(Suit::Spade, 1),
    ]);
    assert_eq!(cols[6][5], card(Suit::Spade, 6));
    assert_eq!(cols[2][5], card(Suit::Spade, 10));
    assert_eq!(cols[2][6], card(Suit::Heart, 9));

    let mut fc = FreeCell::from_deck(deck_from_cols(&cols));
    // an Ace does not stack on an Ace, so the group stops at the top card;
    // full reserve free, no empty column: capacity = min(1, (4 + 1) * 1)
    assert_eq!(fc.group_size(7), 1);
    assert_eq!(fc.move_capacity(7, 6), 1);

    for _ in 0..4 {
        let ace = fc.pop_tableau(7);
        assert!(fc.can_move_to_foundation(ace));
        fc.add_to_foundation(ace);
    }
    assert_eq!(fc.group_size(7), 2);
    fc.move_tableau_group(7, 6, 2);
    assert_eq!(fc.group_size(7), 0);

    // two reserve slots taken, two free; col 7 is the one empty column
    let a = fc.pop_tableau(0);
    fc.add_to_reserve(a);
    let b = fc.pop_tableau(1);
    fc.add_to_reserve(b);

    // capacity = min(group_size(2), (2 + 1) * 2) = min(2, 6)
    assert_eq!(fc.group_size(2), 2);
    assert_eq!(fc.move_capacity(2, 3), 2);
    // moving into the empty column itself does not count it as free:
    // capacity = min(2, (2 + 1) * 1)
    assert_eq!(fc.move_capacity(2, 7), 2);

    // a single-card column has group size 1
    let c = fc.pop_tableau(3);
    fc.add_to_tableau(c, 7);
    assert_eq!(fc.group_size(7), 1);
}

#[test]
fn tableau_mut_borrows_one_column() {
    let mut fc = FreeCell::from_deck(full_set());
    let col = fc.tableau_mut(0);
    let top = col.pop().unwrap();
    col.insert(0, top);
    assert_eq!(fc.tableau(0).len(), 7);
    assert_eq!(fc.tableau(0)[0], top);
    assert_eq!(fc.tableau(1).len(), 7);
}

#[test]
fn auto_sweep_margin_blocks_a_placeable_card() {
    // Foundations club:2, spade:1, diamond and heart empty.
    let mut cols = canonical_cols();
    pin(&mut cols, card(Suit::Club, 1), 2, 6);
    pin(&mut cols, card(Suit::Club, 2), 3, 6);
    pin(&mut cols, card(Suit::Spade, 1), 4, 5);
    assert_eq!(cols[2][6], card(Suit::Club, 1));
    assert_eq!(cols[3][6], card(Suit::Club, 2));
    assert_eq!(cols[4][5], card(Suit::Spade, 1));

    let mut fc = FreeCell::from_deck(deck_from_cols(&cols));
    let ca = fc.pop_tableau(2);
    fc.add_to_foundation(ca);
    let c2 = fc.pop_tableau(3);
    fc.add_to_foundation(c2);
    let sa = fc.pop_tableau(4);
    fc.add_to_foundation(sa);

    // min_black = 1, min_red = 0: black threshold is min(1+3, 0+2) = 2.
    // A black 4 is never placeable here, and not safe either.
    assert!(!fc.can_move_to_foundation(card(Suit::Spade, 4)));
    assert!(!fc.should_move_to_foundation(card(Suit::Spade, 4)));
    // The club 3 could be placed, but the margin refuses to auto-sweep it.
    assert!(fc.can_move_to_foundation(card(Suit::Club, 3)));
    assert!(!fc.should_move_to_foundation(card(Suit::Club, 3)));
    // The spade 2 is placeable and within the margin.
    assert!(fc.can_move_to_foundation(card(Suit::Spade, 2)));
    assert!(fc.should_move_to_foundation(card(Suit::Spade, 2)));
}
