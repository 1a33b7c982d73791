//! The playing-card value types: suits, their colors, face values, and the
//! comparison predicates that every rule of the game is built from.

use vstd::prelude::*;

verus! {

pub const ACE: u8 = 1;
pub const JACK: u8 = 11;
pub const QUEEN: u8 = 12;
pub const KING: u8 = 13;

pub const NUM_SUITS: usize = 4;
pub const NUM_FACES: usize = 13;

pub const RESERVE_SLOTS: usize = 4;
pub const FOUNDATION_SLOTS: usize = 4;
pub const TABLEAU_SLOTS: usize = 8;

#[derive(Copy, Clone, Debug, PartialEq, Eq, Structural)]
pub enum Suit {
    Club,
    Diamond,
    Heart,
    Spade,
}

#[derive(Copy, Clone, Debug, PartialEq, Eq, Structural)]
pub enum Color {
    Black,
    Red,
}

#[derive(Copy, Clone, Debug, PartialEq, Eq, Structural)]
pub struct Face(pub u8);

#[derive(Copy, Clone, Debug, PartialEq, Eq, Structural)]
pub struct Card {
    pub suit: Suit,
    pub value: Face,
}

impl Suit {
    /// The index of this suit's foundation slot.
    pub open spec fn index_spec(self) -> int {
        match self {
            Suit::Club => 0,
            Suit::Diamond => 1,
            Suit::Heart => 2,
            Suit::Spade => 3,
        }
    }

    pub fn as_index(&self) -> (r: usize)
        ensures
            r == self.index_spec(),
    {
        match *self {
            Suit::Club => 0,
            Suit::Diamond => 1,
            Suit::Heart => 2,
            Suit::Spade => 3,
        }
    }

    /// The suit whose foundation slot has the given index.
    pub open spec fn from_index_spec(i: int) -> Suit {
        if i == 0 {
            Suit::Club
        } else if i == 1 {
            Suit::Diamond
        } else if i == 2 {
            Suit::Heart
        } else {
            Suit::Spade
        }
    }

    pub open spec fn color_spec(self) -> Color {
        match self {
            Suit::Club | Suit::Spade => Color::Black,
            Suit::Heart | Suit::Diamond => Color::Red,
        }
    }

    pub fn color(&self) -> (r: Color)
        ensures
            r == self.color_spec(),
    {
        match *self {
            Suit::Club | Suit::Spade => Color::Black,
            Suit::Heart | Suit::Diamond => Color::Red,
        }
    }

    pub open spec fn char_spec(self) -> char {
        match self {
            Suit::Club => '\u{2663}',
            Suit::Diamond => '\u{2666}',
            Suit::Heart => '\u{2665}',
            Suit::Spade => '\u{2660}',
        }
    }

    pub fn char(&self) -> (r: char)
        ensures
            r == self.char_spec(),
    {
        match *self {
            Suit::Club => '\u{2663}',
            Suit::Diamond => '\u{2666}',
            Suit::Heart => '\u{2665}',
            Suit::Spade => '\u{2660}',
        }
    }
}

impl Card {
    /// A card of the standard deck: face values run from Ace (1) to King (13).
    pub open spec fn valid(self) -> bool {
        1 <= self.value.0 <= 13
    }

    pub fn new(suit: Suit, value: Face) -> (r: Card)
        ensures
            r == (Card { suit, value }),
    {
        Card { suit, value }
    }

    /// Same suit and a strictly lower face value.
    pub open spec fn is_lower_spec(self, other: Card) -> bool {
        self.suit == other.suit && self.value.0 < other.value.0
    }

    /// Returns whether `self` is the same suit as and a lower value than the
    /// given card; comparing against a foundation top, this tells whether
    /// `self` has already been placed on that foundation.
    pub fn is_lower(&self, other: Card) -> (r: bool)
        ensures
            r == self.is_lower_spec(other),
    {
        self.suit == other.suit && self.value.0 < other.value.0
    }

    /// One rank below and of the opposite color: may be stacked atop `other`
    /// on the tableau.
    pub open spec fn can_top_spec(self, other: Card) -> bool {
        self.value.0 == other.value.0 - 1 && self.suit.color_spec() != other.suit.color_spec()
    }

    /// Returns whether `self` may be placed atop `other` on the tableau.
    pub fn can_top(&self, other: Card) -> (r: bool)
        ensures
            r == self.can_top_spec(other),
    {
        (self.value.0 as u16) + 1 == (other.value.0 as u16) && self.suit.color() != other.suit.color()
    }

    /// One rank above the given foundation top, or an Ace when the
    /// foundation is empty.
    pub open spec fn can_succeed_spec(self, other: Option<Card>) -> bool {
        match other {
            Some(c) => self.value.0 == c.value.0 + 1,
            None => self.value.0 == ACE,
        }
    }

    /// Returns whether `self` may succeed the given card; or an empty slot
    /// if the given card is `None`.
    pub fn can_succeed(&self, other: Option<Card>) -> (r: bool)
        ensures
            r == self.can_succeed_spec(other),
    {
        match other {
            Some(c) => (self.value.0 as u16) == (c.value.0 as u16) + 1,
            None => self.value.0 == ACE,
        }
    }
}

} // verus!
