//! Cards, the Set rule over three cards, and the order in which cards sort.

use crate::attributes::{
    all_same_or_all_different, lemma_completion_unique, roll_ordinal, Color, Fill, Quantity, Shape,
};
use crate::random::roll_inclusive;
use rand_pcg::Pcg32;
use vstd::prelude::*;

verus! {

broadcast use vstd::seq_lib::group_to_multiset_ensures;

/// A card in a game of Set. Its contents can vary in four dimensions: [`Shape`],
/// [`Quantity`], [`Fill`], and [`Color`]. In a standard Set deck,
/// there is one of each unique card, for a total of 3^4 = 81 cards.
#[derive(Clone, Copy, Debug, PartialEq, Eq, Structural, PartialOrd, Ord, Hash)]
pub struct Card {
    pub shape: Shape,
    pub quantity: Quantity,
    pub fill: Fill,
    pub color: Color,
}

/// Three cards form a Set when, in each of the four attributes,
/// they are all the same or all different.
pub open spec fn is_set(a: Card, b: Card, c: Card) -> bool {
    &&& all_same_or_all_different(a.shape.ordinal(), b.shape.ordinal(), c.shape.ordinal())
    &&& all_same_or_all_different(
        a.quantity.ordinal(),
        b.quantity.ordinal(),
        c.quantity.ordinal(),
    )
    &&& all_same_or_all_different(a.fill.ordinal(), b.fill.ordinal(), c.fill.ordinal())
    &&& all_same_or_all_different(a.color.ordinal(), b.color.ordinal(), c.color.ordinal())
}

/// The three cards held in an array form a Set.
pub open spec fn is_set_array(set: [Card; 3]) -> bool {
    is_set(set[0], set[1], set[2])
}

/// The three cards of an array in ascending order.
pub open spec fn is_sorted_array(set: [Card; 3]) -> bool {
    set[0].rank() <= set[1].rank() <= set[2].rank()
}

/// `t` holds the same cards as `s`, each as often.
pub open spec fn same_cards(s: Seq<Card>, t: Seq<Card>) -> bool {
    s.to_multiset() =~= t.to_multiset()
}

impl Card {
    /// The position of the card among all 81 cards in the order of the derived `Ord`:
    /// by shape, then quantity, then fill, then color.
    pub open spec fn rank(self) -> int {
        ((self.shape.ordinal() * 3 + self.quantity.ordinal()) * 3 + self.fill.ordinal()) * 3
            + self.color.ordinal()
    }

    pub fn new(shape: Shape, quantity: Quantity, fill: Fill, color: Color) -> (card: Card)
        ensures
            card.shape == shape,
            card.quantity == quantity,
            card.fill == fill,
            card.color == color,
    {
        Card { shape, quantity, fill, color }
    }

    /// The card's rank (see [`Card::rank`]) as a number.
    pub fn rank_value(&self) -> (r: u8)
        ensures
            r == self.rank(),
    {
        let s: u8 = match self.shape {
            Shape::Diamond => 0,
            Shape::Oval => 1,
            Shape::Squiggle => 2,
        };
        let q: u8 = match self.quantity {
            Quantity::One => 0,
            Quantity::Two => 1,
            Quantity::Three => 2,
        };
        let f: u8 = match self.fill {
            Fill::Empty => 0,
            Fill::Dashed => 1,
            Fill::Filled => 2,
        };
        let c: u8 = match self.color {
            Color::Blue => 0,
            Color::Gold => 1,
            Color::Pink => 2,
        };
        ((s * 3 + q) * 3 + f) * 3 + c
    }

    /// Whether `self` sorts strictly before `other` (the derived `<` on cards).
    pub fn is_before(&self, other: &Card) -> (b: bool)
        ensures
            b == (self.rank() < other.rank()),
    {
        self.rank_value() < other.rank_value()
    }

    /// The card that four draws from `0..=2` select, one per attribute.
    pub fn from_rolls(shape: i32, quantity: i32, fill: i32, color: i32) -> (card: Card)
        ensures
            card.shape.ordinal() == roll_ordinal(shape),
            card.quantity.ordinal() == roll_ordinal(quantity),
            card.fill.ordinal() == roll_ordinal(fill),
            card.color.ordinal() == roll_ordinal(color),
    {
        Card {
            shape: Shape::from_roll(shape),
            quantity: Quantity::from_roll(quantity),
            fill: Fill::from_roll(fill),
            color: Color::from_roll(color),
        }
    }

    /// A card drawn at random: each attribute uniformly, drawn in the order
    /// shape, quantity, fill, color, and selected by [`Card::from_rolls`].
    pub fn random(rng: &mut Pcg32) -> Card {
        let shape = roll_inclusive(rng, 2);
        let quantity = roll_inclusive(rng, 2);
        let fill = roll_inclusive(rng, 2);
        let color = roll_inclusive(rng, 2);
        Card::from_rolls(shape, quantity, fill, color)
    }
}

/// The card that completes two cards to a Set (there is exactly one, see
/// [`lemma_completing_card_unique`]).
pub open spec fn completion(first: Card, second: Card) -> Card {
    choose|third: Card| #[trigger] is_set(first, second, third)
}

/// Returns the third card that would complete the set given these two cards.
pub fn find_card_completing_set(first: Card, second: Card) -> (third: Card)
    ensures
        is_set(first, second, third),
        third == completion(first, second),
{
    let shape = first.shape.get_third_to_complete_set(second.shape);
    let quantity = first.quantity.get_third_to_complete_set(second.quantity);
    let fill = first.fill.get_third_to_complete_set(second.fill);
    let color = first.color.get_third_to_complete_set(second.color);

    let third = Card { shape, quantity, fill, color };
    proof {
        assert(is_set(first, second, third));
        lemma_completing_card_unique(first, second, third, completion(first, second));
    }
    third
}

/// The three cards of `set` in ascending order (there is one such order, see
/// [`lemma_sorted_set_unique`]).
pub open spec fn sorted_set(set: [Card; 3]) -> [Card; 3] {
    choose|s: [Card; 3]| is_sorted_array(s) && same_cards(s@, set@)
}

/// Sorts the three cards of a set in ascending order (the derived `Ord`).
pub fn sort_set(set: [Card; 3]) -> (sorted: [Card; 3])
    ensures
        sorted == sorted_set(set),
        is_sorted_array(sorted),
        same_cards(sorted@, set@),
        is_set_array(set) ==> is_set_array(sorted),
{
    let mut x = set[0];
    let mut y = set[1];
    let mut z = set[2];
    if y.is_before(&x) {
        proof {
            lemma_set_order_free(x, y, z);
        }
        let t = x;
        x = y;
        y = t;
    }
    if z.is_before(&y) {
        proof {
            lemma_set_order_free(x, y, z);
            lemma_set_order_free(x, z, y);
            lemma_set_order_free(z, x, y);
        }
        let t = y;
        y = z;
        z = t;
    }
    if y.is_before(&x) {
        proof {
            lemma_set_order_free(x, y, z);
        }
        let t = x;
        x = y;
        y = t;
    }
    let sorted = [x, y, z];
    proof {
        lemma_multiset_of_three(set[0], set[1], set[2]);
        lemma_multiset_of_three(x, y, z);
        assert(set@ =~= seq![set[0], set[1], set[2]]);
        assert(sorted@ =~= seq![x, y, z]);
        assert(is_sorted_array(sorted) && same_cards(sorted@, set@));
        lemma_sorted_set_unique(sorted_set(set), sorted);
    }
    sorted
}

/// Whether two sets hold the same three cards in the same positions.
pub fn same_set(a: &[Card; 3], b: &[Card; 3]) -> (same: bool)
    ensures
        same == (*a == *b),
{
    let same = a[0] == b[0] && a[1] == b[1] && a[2] == b[2];
    proof {
        broadcast use vstd::array::axiom_array_ext_equal;

        if same {
            assert(*a =~= *b);
        }
    }
    same
}

/// The cards of a three-element sequence, as a multiset.
proof fn lemma_multiset_of_three(a: Card, b: Card, c: Card)
    ensures
        seq![a, b, c].to_multiset() =~= vstd::multiset::Multiset::empty().insert(a).insert(b).insert(c),
{
    broadcast use vstd::seq_lib::to_multiset_build;

    assert(seq![a, b, c] =~= Seq::<Card>::empty().push(a).push(b).push(c));
    assert(Seq::<Card>::empty().to_multiset() =~= vstd::multiset::Multiset::empty());
}

} // verus!

verus! {

/// Whether three cards form a Set does not depend on the order in which they are taken.
pub proof fn lemma_set_order_free(a: Card, b: Card, c: Card)
    ensures
        is_set(a, b, c) == is_set(b, a, c),
        is_set(a, b, c) == is_set(a, c, b),
        is_set(a, b, c) == is_set(c, b, a),
{
}

/// Two cards are completed to a Set by exactly one card.
pub proof fn lemma_completing_card_unique(a: Card, b: Card, c: Card, d: Card)
    requires
        is_set(a, b, c),
        is_set(a, b, d),
    ensures
        c == d,
{
    lemma_completion_unique(
        a.shape.ordinal(),
        b.shape.ordinal(),
        c.shape.ordinal(),
        d.shape.ordinal(),
    );
    lemma_completion_unique(
        a.quantity.ordinal(),
        b.quantity.ordinal(),
        c.quantity.ordinal(),
        d.quantity.ordinal(),
    );
    lemma_completion_unique(
        a.fill.ordinal(),
        b.fill.ordinal(),
        c.fill.ordinal(),
        d.fill.ordinal(),
    );
    lemma_completion_unique(
        a.color.ordinal(),
        b.color.ordinal(),
        c.color.ordinal(),
        d.color.ordinal(),
    );
}

/// A card taken twice is completed to a Set only by itself; two different cards are
/// completed by a card different from both.
pub proof fn lemma_completing_card_repeats_or_differs(a: Card, b: Card, c: Card)
    requires
        is_set(a, b, c),
    ensures
        a == b ==> c == a,
        a != b ==> c != a && c != b,
{
}

/// Completing the completion of `a` and `b` with `a` gives back `b`, and completing
/// `b` and `a` gives the same card as completing `a` and `b`.
pub proof fn lemma_completing_card_undoes(a: Card, b: Card, c: Card, d: Card, e: Card)
    requires
        is_set(a, b, c),
        is_set(a, c, d),
        is_set(b, a, e),
    ensures
        d == b,
        e == c,
{
    lemma_set_order_free(a, b, c);
    lemma_completing_card_unique(a, c, b, d);
    lemma_completing_card_unique(b, a, c, e);
}

/// Different cards have different ranks, all below 81: the rank orders cards totally.
pub proof fn lemma_rank_identifies_card(a: Card, b: Card)
    ensures
        0 <= a.rank() < 81,
        a.rank() == b.rank() ==> a == b,
{
}

} // verus!

verus! {

/// Sorting three cards has one outcome: two arrays in ascending order that hold the
/// same cards are equal.
pub proof fn lemma_sorted_set_unique(s: [Card; 3], t: [Card; 3])
    requires
        is_sorted_array(s),
        is_sorted_array(t),
        same_cards(s@, t@),
    ensures
        s == t,
{
    broadcast use vstd::array::axiom_array_ext_equal;

    lemma_multiset_of_three(s[0], s[1], s[2]);
    lemma_multiset_of_three(t[0], t[1], t[2]);
    assert(s@ =~= seq![s[0], s[1], s[2]]);
    assert(t@ =~= seq![t[0], t[1], t[2]]);
    let m = s@.to_multiset();
    assert(m.count(s[0]) > 0 && m.count(s[1]) > 0 && m.count(s[2]) > 0);
    assert(m.count(t[0]) > 0 && m.count(t[1]) > 0 && m.count(t[2]) > 0);
    assert forall|a: Card, b: Card| #[trigger] a.rank() == #[trigger] b.rank() implies a == b by {
        lemma_rank_identifies_card(a, b);
    }
    assert(s[0] == t[0]);
    assert(s[2] == t[2]);
    assert(m.count(s[1]) == t@.to_multiset().count(s[1]));
    assert(s[1] == t[1]);
    assert(s =~= t);
}

} // verus!

verus! {

/// The cards of an array that holds the same cards as `a`, `b`, `c` are among them.
pub proof fn lemma_same_cards_members(s: [Card; 3], a: Card, b: Card, c: Card)
    requires
        same_cards(s@, seq![a, b, c]),
    ensures
        forall|i: int| 0 <= i < 3 ==> #[trigger] s[i] == a || s[i] == b || s[i] == c,
{
    lemma_multiset_of_three(s[0], s[1], s[2]);
    lemma_multiset_of_three(a, b, c);
    assert(s@ =~= seq![s[0], s[1], s[2]]);
    let m = s@.to_multiset();
    assert(m.count(s[0]) > 0 && m.count(s[1]) > 0 && m.count(s[2]) > 0);
}

} // verus!

verus! {

/// Whether three cards form a Set.
pub fn forms_set(a: Card, b: Card, c: Card) -> (set: bool)
    ensures
        set == is_set(a, b, c),
{
    let third = find_card_completing_set(a, b);
    proof {
        if is_set(a, b, c) {
            lemma_completing_card_unique(a, b, c, third);
        }
    }
    third == c
}

} // verus!

verus! {

/// An array that holds the same cards as three different cards holds three different cards.
pub proof fn lemma_same_cards_distinct(s: [Card; 3], a: Card, b: Card, c: Card)
    requires
        same_cards(s@, seq![a, b, c]),
        a != b,
        b != c,
        a != c,
    ensures
        s[0] != s[1],
        s[1] != s[2],
        s[0] != s[2],
{
    lemma_multiset_of_three(s[0], s[1], s[2]);
    lemma_multiset_of_three(a, b, c);
    assert(s@ =~= seq![s[0], s[1], s[2]]);
    let m = s@.to_multiset();
    assert(m.count(a) == 1 && m.count(b) == 1 && m.count(c) == 1);
    lemma_same_cards_members(s, a, b, c);
}

} // verus!

verus! {

/// Every three cards have an order in which they ascend: [`sorted_set`] gives it.
pub proof fn lemma_sorted_set_exists(set: [Card; 3])
    ensures
        is_sorted_array(sorted_set(set)),
        same_cards(sorted_set(set)@, set@),
{
    broadcast use vstd::multiset::group_multiset_axioms;

    let a = set[0];
    let b = set[1];
    let c = set[2];
    lemma_multiset_of_three(a, b, c);
    assert(set@ =~= seq![a, b, c]);
    let w: [Card; 3] = if a.rank() <= b.rank() {
        if b.rank() <= c.rank() {
            [a, b, c]
        } else if a.rank() <= c.rank() {
            [a, c, b]
        } else {
            [c, a, b]
        }
    } else {
        if a.rank() <= c.rank() {
            [b, a, c]
        } else if b.rank() <= c.rank() {
            [b, c, a]
        } else {
            [c, b, a]
        }
    };
    lemma_multiset_of_three(w[0], w[1], w[2]);
    assert(w@ =~= seq![w[0], w[1], w[2]]);
    assert(is_sorted_array(w) && same_cards(w@, set@));
}

} // verus!
