//! The card-accounting model: multiset-valued spec functions that say which
//! cards each zone holds, and the lemmas that track them across updates. A
//! foundation slot showing rank `r` stands for all cards of its suit from the
//! Ace up to `r`; the three zone sums together must always equal the full
//! 52-card deck.

use vstd::prelude::*;
use vstd::multiset::Multiset;

use crate::card::{Card, Face, Suit};

verus! {

/// The card held by one optional slot.
pub open spec fn opt_cards(o: Option<Card>) -> Multiset<Card> {
    match o {
        Some(c) => Multiset::empty().insert(c),
        None => Multiset::empty(),
    }
}

/// The cards held in a row of optional slots.
pub open spec fn slots_cards(s: Seq<Option<Card>>) -> Multiset<Card>
    decreases s.len(),
{
    if s.len() == 0 {
        Multiset::empty()
    } else {
        slots_cards(s.drop_last()).add(opt_cards(s.last()))
    }
}

/// The cards of one suit with face values 1 up to `r`.
pub open spec fn run_cards(suit: Suit, r: nat) -> Multiset<Card>
    decreases r,
{
    if r == 0 {
        Multiset::empty()
    } else {
        run_cards(suit, (r - 1) as nat).insert(Card { suit, value: Face(r as u8) })
    }
}

/// The cards a foundation slot stands for: its suit's run up to the rank it
/// shows.
pub open spec fn foundation_run(o: Option<Card>) -> Multiset<Card> {
    match o {
        Some(c) => run_cards(c.suit, c.value.0 as nat),
        None => Multiset::empty(),
    }
}

/// The cards all foundation slots stand for.
pub open spec fn foundation_cards(s: Seq<Option<Card>>) -> Multiset<Card>
    decreases s.len(),
{
    if s.len() == 0 {
        Multiset::empty()
    } else {
        foundation_cards(s.drop_last()).add(foundation_run(s.last()))
    }
}

/// The cards held by the tableau columns.
pub open spec fn columns_cards(s: Seq<Seq<Card>>) -> Multiset<Card>
    decreases s.len(),
{
    if s.len() == 0 {
        Multiset::empty()
    } else {
        columns_cards(s.drop_last()).add(s.last().to_multiset())
    }
}

/// The full 52-card deck: all four suits, Ace through King, once each.
pub open spec fn full_deck() -> Multiset<Card> {
    run_cards(Suit::Club, 13).add(run_cards(Suit::Diamond, 13)).add(
        run_cards(Suit::Heart, 13),
    ).add(run_cards(Suit::Spade, 13))
}

/// Cancel a common summand: multiset addition is injective.
pub proof fn lemma_add_cancel(a: Multiset<Card>, b: Multiset<Card>, x: Multiset<Card>)
    requires
        a.add(x) == b.add(x),
    ensures
        a == b,
{
    broadcast use vstd::multiset::group_multiset_axioms;

    assert forall|c: Card| #[trigger] a.count(c) == b.count(c) by {
        assert(a.add(x).count(c) == a.count(c) + x.count(c));
        assert(b.add(x).count(c) == b.count(c) + x.count(c));
        assert(a.add(x).count(c) == b.add(x).count(c));
    }
    assert(a =~= b);
}

/// Inserting into one summand inserts into the sum, on either side.
pub proof fn lemma_insert_shift(a: Multiset<Card>, b: Multiset<Card>, c: Card)
    ensures
        a.add(b.insert(c)) == a.add(b).insert(c),
        a.insert(c).add(b) == a.add(b).insert(c),
{
    broadcast use vstd::multiset::group_multiset_axioms;
    broadcast use vstd::multiset::group_multiset_properties;

    assert forall|x: Card| #[trigger] a.add(b.insert(c)).count(x) == a.add(b).insert(c).count(
        x,
    ) by {
        assert(a.add(b.insert(c)).count(x) == a.count(x) + b.insert(c).count(x));
        assert(a.add(b).count(x) == a.count(x) + b.count(x));
    }
    assert(a.add(b.insert(c)) =~= a.add(b).insert(c));
    assert forall|x: Card| #[trigger] a.insert(c).add(b).count(x) == a.add(b).insert(c).count(
        x,
    ) by {
        assert(a.insert(c).add(b).count(x) == a.insert(c).count(x) + b.count(x));
        assert(a.add(b).count(x) == a.count(x) + b.count(x));
    }
    assert(a.insert(c).add(b) =~= a.add(b).insert(c));
}

/// The empty multiset is the identity of addition.
pub proof fn lemma_add_empty(a: Multiset<Card>)
    ensures
        a.add(Multiset::empty()) == a,
{
    broadcast use vstd::multiset::group_multiset_axioms;

    assert forall|x: Card| #[trigger] a.add(Multiset::<Card>::empty()).count(x) == a.count(x) by {
        assert(a.add(Multiset::<Card>::empty()).count(x) == a.count(x)
            + Multiset::<Card>::empty().count(x));
    }
    assert(a.add(Multiset::<Card>::empty()) =~= a);
}

/// Replacing one reserve slot exchanges exactly its contribution.
pub proof fn lemma_slots_cards_update(s: Seq<Option<Card>>, i: int, v: Option<Card>)
    requires
        0 <= i < s.len(),
    ensures
        slots_cards(s.update(i, v)).add(opt_cards(s[i])) == slots_cards(s).add(opt_cards(v)),
    decreases s.len(),
{
    broadcast use vstd::multiset::group_multiset_axioms;

    let t = s.update(i, v);
    if i == s.len() - 1 {
        assert(t.drop_last() =~= s.drop_last());
        assert(slots_cards(t).add(opt_cards(s[i])) =~= slots_cards(s).add(opt_cards(v)));
    } else {
        assert(t.drop_last() =~= s.drop_last().update(i, v));
        assert(t.last() == s.last());
        lemma_slots_cards_update(s.drop_last(), i, v);
        assert(s.drop_last()[i] == s[i]);
        assert forall|x: Card|
            #[trigger] slots_cards(t).add(opt_cards(s[i])).count(x) == slots_cards(s).add(
                opt_cards(v),
            ).count(x) by {
            assert(slots_cards(t).count(x) == slots_cards(s.drop_last().update(i, v)).add(
                opt_cards(s.last()),
            ).count(x));
            assert(slots_cards(s).count(x) == slots_cards(s.drop_last()).add(
                opt_cards(s.last()),
            ).count(x));
            assert(slots_cards(s.drop_last().update(i, v)).add(opt_cards(s[i])).count(x)
                == slots_cards(s.drop_last()).add(opt_cards(v)).count(x));
        }
        assert(slots_cards(t).add(opt_cards(s[i])) =~= slots_cards(s).add(opt_cards(v)));
    }
}

/// Replacing one foundation slot exchanges exactly its run.
pub proof fn lemma_foundation_cards_update(s: Seq<Option<Card>>, i: int, v: Option<Card>)
    requires
        0 <= i < s.len(),
    ensures
        foundation_cards(s.update(i, v)).add(foundation_run(s[i])) == foundation_cards(s).add(
            foundation_run(v),
        ),
    decreases s.len(),
{
    broadcast use vstd::multiset::group_multiset_axioms;

    let t = s.update(i, v);
    if i == s.len() - 1 {
        assert(t.drop_last() =~= s.drop_last());
        assert(foundation_cards(t).add(foundation_run(s[i])) =~= foundation_cards(s).add(
            foundation_run(v),
        ));
    } else {
        assert(t.drop_last() =~= s.drop_last().update(i, v));
        assert(t.last() == s.last());
        lemma_foundation_cards_update(s.drop_last(), i, v);
        assert(s.drop_last()[i] == s[i]);
        assert forall|x: Card|
            #[trigger] foundation_cards(t).add(foundation_run(s[i])).count(x)
                == foundation_cards(s).add(foundation_run(v)).count(x) by {
            assert(foundation_cards(t).count(x) == foundation_cards(
                s.drop_last().update(i, v),
            ).add(foundation_run(s.last())).count(x));
            assert(foundation_cards(s).count(x) == foundation_cards(s.drop_last()).add(
                foundation_run(s.last()),
            ).count(x));
            assert(foundation_cards(s.drop_last().update(i, v)).add(
                foundation_run(s[i]),
            ).count(x) == foundation_cards(s.drop_last()).add(foundation_run(v)).count(x));
        }
        assert(foundation_cards(t).add(foundation_run(s[i])) =~= foundation_cards(s).add(
            foundation_run(v),
        ));
    }
}

/// Replacing one tableau column exchanges exactly its cards.
pub proof fn lemma_columns_cards_update(s: Seq<Seq<Card>>, i: int, v: Seq<Card>)
    requires
        0 <= i < s.len(),
    ensures
        columns_cards(s.update(i, v)).add(s[i].to_multiset()) == columns_cards(s).add(
            v.to_multiset(),
        ),
    decreases s.len(),
{
    broadcast use vstd::multiset::group_multiset_axioms;

    let t = s.update(i, v);
    if i == s.len() - 1 {
        assert(t.drop_last() =~= s.drop_last());
        assert(columns_cards(t).add(s[i].to_multiset()) =~= columns_cards(s).add(
            v.to_multiset(),
        ));
    } else {
        assert(t.drop_last() =~= s.drop_last().update(i, v));
        assert(t.last() == s.last());
        lemma_columns_cards_update(s.drop_last(), i, v);
        assert(s.drop_last()[i] == s[i]);
        assert forall|x: Card|
            #[trigger] columns_cards(t).add(s[i].to_multiset()).count(x) == columns_cards(
                s,
            ).add(v.to_multiset()).count(x) by {
            assert(columns_cards(t).count(x) == columns_cards(s.drop_last().update(i, v)).add(
                s.last().to_multiset(),
            ).count(x));
            assert(columns_cards(s).count(x) == columns_cards(s.drop_last()).add(
                s.last().to_multiset(),
            ).count(x));
            assert(columns_cards(s.drop_last().update(i, v)).add(s[i].to_multiset()).count(x)
                == columns_cards(s.drop_last()).add(v.to_multiset()).count(x));
        }
        assert(columns_cards(t).add(s[i].to_multiset()) =~= columns_cards(s).add(
            v.to_multiset(),
        ));
    }
}

/// Each reserve slot's card is contained in the reserve sum.
pub proof fn lemma_slots_cards_count_ge(s: Seq<Option<Card>>, i: int, c: Card)
    requires
        0 <= i < s.len(),
    ensures
        slots_cards(s).count(c) >= opt_cards(s[i]).count(c),
    decreases s.len(),
{
    broadcast use vstd::multiset::group_multiset_axioms;

    if i == s.len() - 1 {
    } else {
        lemma_slots_cards_count_ge(s.drop_last(), i, c);
        assert(s.drop_last()[i] == s[i]);
    }
}

/// Each foundation slot's run is contained in the foundation sum.
pub proof fn lemma_foundation_cards_count_ge(s: Seq<Option<Card>>, i: int, c: Card)
    requires
        0 <= i < s.len(),
    ensures
        foundation_cards(s).count(c) >= foundation_run(s[i]).count(c),
    decreases s.len(),
{
    broadcast use vstd::multiset::group_multiset_axioms;

    if i == s.len() - 1 {
    } else {
        lemma_foundation_cards_count_ge(s.drop_last(), i, c);
        assert(s.drop_last()[i] == s[i]);
    }
}

/// Each column's cards are contained in the tableau sum.
pub proof fn lemma_columns_cards_count_ge(s: Seq<Seq<Card>>, i: int, c: Card)
    requires
        0 <= i < s.len(),
    ensures
        columns_cards(s).count(c) >= s[i].to_multiset().count(c),
    decreases s.len(),
{
    broadcast use vstd::multiset::group_multiset_axioms;

    if i == s.len() - 1 {
    } else {
        lemma_columns_cards_count_ge(s.drop_last(), i, c);
        assert(s.drop_last()[i] == s[i]);
    }
}

/// A row of vacant slots holds no cards.
pub proof fn lemma_slots_cards_all_none(s: Seq<Option<Card>>)
    requires
        forall|i: int| 0 <= i < s.len() ==> (#[trigger] s[i]) is None,
    ensures
        slots_cards(s) == Multiset::<Card>::empty(),
    decreases s.len(),
{
    if s.len() > 0 {
        lemma_slots_cards_all_none(s.drop_last());
        lemma_add_empty(slots_cards(s.drop_last()));
    }
}

/// A row of vacant foundation slots stands for no cards.
pub proof fn lemma_foundation_cards_all_none(s: Seq<Option<Card>>)
    requires
        forall|i: int| 0 <= i < s.len() ==> (#[trigger] s[i]) is None,
    ensures
        foundation_cards(s) == Multiset::<Card>::empty(),
    decreases s.len(),
{
    if s.len() > 0 {
        lemma_foundation_cards_all_none(s.drop_last());
        lemma_add_empty(foundation_cards(s.drop_last()));
    }
}

/// Empty columns hold no cards.
pub proof fn lemma_columns_cards_all_empty(s: Seq<Seq<Card>>)
    requires
        forall|i: int| 0 <= i < s.len() ==> (#[trigger] s[i]).len() == 0,
    ensures
        columns_cards(s) == Multiset::<Card>::empty(),
    decreases s.len(),
{
    if s.len() > 0 {
        lemma_columns_cards_all_empty(s.drop_last());
        lemma_add_empty(columns_cards(s.drop_last()));
        assert(s.last().to_multiset() =~= Multiset::<Card>::empty()) by {
            broadcast use vstd::seq_lib::group_to_multiset_ensures;
            broadcast use vstd::multiset::group_multiset_axioms;

            assert(s.last().to_multiset().len() == 0);
        }
    }
}

/// Two distinct columns' cards are jointly contained in the tableau sum.
pub proof fn lemma_columns_cards_count_ge2(s: Seq<Seq<Card>>, i: int, j: int, c: Card)
    requires
        0 <= i < j < s.len(),
    ensures
        columns_cards(s).count(c) >= s[i].to_multiset().count(c) + s[j].to_multiset().count(c),
    decreases s.len(),
{
    broadcast use vstd::multiset::group_multiset_axioms;

    assert(columns_cards(s).count(c) == columns_cards(s.drop_last()).add(
        s.last().to_multiset(),
    ).count(c));
    assert(columns_cards(s.drop_last()).add(s.last().to_multiset()).count(c) == columns_cards(
        s.drop_last(),
    ).count(c) + s.last().to_multiset().count(c));
    if j == s.len() - 1 {
        lemma_columns_cards_count_ge(s.drop_last(), i, c);
        assert(s.drop_last()[i] == s[i]);
    } else {
        lemma_columns_cards_count_ge2(s.drop_last(), i, j, c);
        assert(s.drop_last()[i] == s[i]);
        assert(s.drop_last()[j] == s[j]);
    }
}

/// A suit's run holds exactly the cards of that suit with values 1 to `r`,
/// once each.
pub proof fn lemma_run_cards_count(suit: Suit, r: nat, c: Card)
    requires
        r <= 13,
    ensures
        run_cards(suit, r).count(c) == if c.suit == suit && 1 <= c.value.0 <= r {
            1int
        } else {
            0int
        },
    decreases r,
{
    broadcast use vstd::multiset::group_multiset_axioms;

    if r > 0 {
        lemma_run_cards_count(suit, (r - 1) as nat, c);
    }
}

/// A suit's run up to `r` holds `r` cards.
pub proof fn lemma_run_cards_len(suit: Suit, r: nat)
    ensures
        run_cards(suit, r).len() == r,
    decreases r,
{
    broadcast use vstd::multiset::group_multiset_axioms;

    if r > 0 {
        lemma_run_cards_len(suit, (r - 1) as nat);
    }
}

/// The full deck holds 52 cards.
pub proof fn lemma_full_deck_len()
    ensures
        full_deck().len() == 52,
{
    broadcast use vstd::multiset::group_multiset_axioms;

    lemma_run_cards_len(Suit::Club, 13);
    lemma_run_cards_len(Suit::Diamond, 13);
    lemma_run_cards_len(Suit::Heart, 13);
    lemma_run_cards_len(Suit::Spade, 13);
}

/// No column holds more cards than the tableau as a whole.
pub proof fn lemma_columns_cards_len_ge(s: Seq<Seq<Card>>, i: int)
    requires
        0 <= i < s.len(),
    ensures
        columns_cards(s).len() >= s[i].to_multiset().len(),
    decreases s.len(),
{
    broadcast use vstd::multiset::group_multiset_axioms;

    if i == s.len() - 1 {
    } else {
        lemma_columns_cards_len_ge(s.drop_last(), i);
        assert(s.drop_last()[i] == s[i]);
    }
}

/// The full deck holds each valid card exactly once and nothing else.
pub proof fn lemma_full_deck_count(c: Card)
    ensures
        full_deck().count(c) == if c.valid() { 1int } else { 0int },
{
    broadcast use vstd::multiset::group_multiset_axioms;

    lemma_run_cards_count(Suit::Club, 13, c);
    lemma_run_cards_count(Suit::Diamond, 13, c);
    lemma_run_cards_count(Suit::Heart, 13, c);
    lemma_run_cards_count(Suit::Spade, 13, c);
}

} // verus!
