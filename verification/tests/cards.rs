use freecell::card::{Card, Color, Face, Suit, ACE, JACK, KING, QUEEN};
use freecell::stats::Stats;

fn card(suit: Suit, value: u8) -> Card {
    Card::new(suit, Face(value))
}

#[test]
fn suit_colors() {
    assert_eq!(Suit::Club.color(), Color::Black);
    assert_eq!(Suit::Spade.color(), Color::Black);
    assert_eq!(Suit::Diamond.color(), Color::Red);
    assert_eq!(Suit::Heart.color(), Color::Red);
}

#[test]
fn suit_indices() {
    assert_eq!(Suit::Club.as_index(), 0);
    assert_eq!(Suit::Diamond.as_index(), 1);
    assert_eq!(Suit::Heart.as_index(), 2);
    assert_eq!(Suit::Spade.as_index(), 3);
}

#[test]
fn suit_chars() {
    assert_eq!(Suit::Club.char(), '\u{2663}');
    assert_eq!(Suit::Diamond.char(), '\u{2666}');
    assert_eq!(Suit::Heart.char(), '\u{2665}');
    assert_eq!(Suit::Spade.char(), '\u{2660}');
}

#[test]
fn face_constants() {
    assert_eq!(ACE, 1);
    assert_eq!(JACK, 11);
    assert_eq!(QUEEN, 12);
    assert_eq!(KING, 13);
}

#[test]
fn can_top_needs_descending_rank_and_alternating_color() {
    // one rank below, opposite color
    assert!(card(Suit::Spade, 5).can_top(card(Suit::Diamond, 6)));
    assert!(card(Suit::Heart, 9).can_top(card(Suit::Club, 10)));
    // same color
    assert!(!card(Suit::Spade, 5).can_top(card(Suit::Club, 6)));
    assert!(!card(Suit::Heart, 5).can_top(card(Suit::Diamond, 6)));
    // wrong rank
    assert!(!card(Suit::Spade, 6).can_top(card(Suit::Diamond, 6)));
    assert!(!card(Suit::Spade, 7).can_top(card(Suit::Diamond, 6)));
    assert!(!card(Suit::Spade, 4).can_top(card(Suit::Diamond, 6)));
}

#[test]
fn can_succeed_starts_at_ace_and_ascends() {
    assert!(card(Suit::Club, ACE).can_succeed(None));
    assert!(!card(Suit::Club, 2).can_succeed(None));
    assert!(card(Suit::Club, 2).can_succeed(Some(card(Suit::Club, ACE))));
    assert!(card(Suit::Heart, KING).can_succeed(Some(card(Suit::Heart, QUEEN))));
    assert!(!card(Suit::Club, 3).can_succeed(Some(card(Suit::Club, ACE))));
    assert!(!card(Suit::Club, ACE).can_succeed(Some(card(Suit::Club, ACE))));
}

#[test]
fn is_lower_compares_within_one_suit() {
    assert!(card(Suit::Club, 3).is_lower(card(Suit::Club, 7)));
    assert!(!card(Suit::Club, 7).is_lower(card(Suit::Club, 3)));
    assert!(!card(Suit::Club, 3).is_lower(card(Suit::Club, 3)));
    assert!(!card(Suit::Club, 3).is_lower(card(Suit::Spade, 7)));
}

#[test]
fn win_rate_is_percentage_of_games_won() {
    let mut s = Stats::default();
    assert_eq!(s.win_rate(), 0);
    s.games = 8;
    s.won = 2;
    assert_eq!(s.win_rate(), 25);
    s.games = 3;
    s.won = 2;
    assert_eq!(s.win_rate(), 66);
}

#[test]
fn time_str_renders_minutes_and_padded_seconds() {
    assert_eq!(freecell::stats::time_str(0), " 0:00");
    assert_eq!(freecell::stats::time_str(59), " 0:59");
    assert_eq!(freecell::stats::time_str(61), " 1:01");
    assert_eq!(freecell::stats::time_str(600), "10:00");
    assert_eq!(freecell::stats::time_str(759), "12:39");
    assert_eq!(freecell::stats::time_str(7200), "120:00");
}

#[test]
fn average_time_is_total_over_wins() {
    let mut s = Stats::default();
    assert_eq!(s.average_time(), 0);
    s.won = 4;
    s.total_time = 121;
    assert_eq!(s.average_time(), 30);
}
