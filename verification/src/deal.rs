//! Dealing the twelve cards of a game: random Sets, then the cards that complete them.

use crate::card::{
    completion, find_card_completing_set, is_set, is_set_array, is_sorted_array, lemma_completing_card_repeats_or_differs,
    lemma_rank_identifies_card, lemma_same_cards_distinct, lemma_same_cards_members, lemma_sorted_set_exists, lemma_sorted_set_unique, same_cards, sorted_set, same_set, sort_set, Card,
};
use crate::random::{flip_coin, pcg32_from_seed, roll_index, roll_inclusive, shuffle_cards};
use crate::attributes::{Color, Fill, Quantity, Shape};
use rand_pcg::Pcg32;
use vstd::prelude::*;

verus! {

broadcast use {vstd::seq_lib::group_to_multiset_ensures, vstd::seq_lib::lemma_seq_contains_after_push};

/// A set as the deal keeps it: three cards that form a Set, in ascending order,
/// each of them among the dealt `cards`.
pub open spec fn is_dealt_set(cards: Seq<Card>, set: [Card; 3]) -> bool {
    &&& is_set_array(set)
    &&& is_sorted_array(set)
    &&& cards.contains(set[0])
    &&& cards.contains(set[1])
    &&& cards.contains(set[2])
}

/// The three cards that the coin flips and drawn pairs give for `card`: in each
/// attribute whose flip is true the two other cards take the card's value, in the
/// others they take the drawn pair, the second card its first value and the third
/// card its second.
pub fn set_from_draws(
    card: Card,
    same_shape: bool,
    same_quantity: bool,
    same_fill: bool,
    same_color: bool,
    shapes: (Shape, Shape),
    quantities: (Quantity, Quantity),
    fills: (Fill, Fill),
    colors: (Color, Color),
) -> (set: [Card; 3])
    ensures
        set[0] == card,
        set[1].shape == if same_shape { card.shape } else { shapes.0 },
        set[2].shape == if same_shape { card.shape } else { shapes.1 },
        set[1].quantity == if same_quantity { card.quantity } else { quantities.0 },
        set[2].quantity == if same_quantity { card.quantity } else { quantities.1 },
        set[1].fill == if same_fill { card.fill } else { fills.0 },
        set[2].fill == if same_fill { card.fill } else { fills.1 },
        set[1].color == if same_color { card.color } else { colors.0 },
        set[2].color == if same_color { card.color } else { colors.1 },
        ({
            &&& (same_shape || (shapes.0 != card.shape && shapes.1 != card.shape && shapes.0 != shapes.1))
            &&& (same_quantity || (quantities.0 != card.quantity && quantities.1 != card.quantity
                && quantities.0 != quantities.1))
            &&& (same_fill || (fills.0 != card.fill && fills.1 != card.fill && fills.0 != fills.1))
            &&& (same_color || (colors.0 != card.color && colors.1 != card.color && colors.0
                != colors.1))
        }) ==> is_set_array(set),
        ({
            &&& !(same_shape && same_quantity && same_fill && same_color)
            &&& (same_shape || (shapes.0 != card.shape && shapes.1 != card.shape && shapes.0 != shapes.1))
            &&& (same_quantity || (quantities.0 != card.quantity && quantities.1 != card.quantity
                && quantities.0 != quantities.1))
            &&& (same_fill || (fills.0 != card.fill && fills.1 != card.fill && fills.0 != fills.1))
            &&& (same_color || (colors.0 != card.color && colors.1 != card.color && colors.0
                != colors.1))
        }) ==> set[0] != set[1] && set[1] != set[2] && set[0] != set[2],
{
    let (second_card_shape, third_card_shape) = if same_shape {
        (card.shape, card.shape)
    } else {
        shapes
    };
    let (second_card_quantity, third_card_quantity) = if same_quantity {
        (card.quantity, card.quantity)
    } else {
        quantities
    };
    let (second_card_fill, third_card_fill) = if same_fill {
        (card.fill, card.fill)
    } else {
        fills
    };
    let (second_card_color, third_card_color) = if same_color {
        (card.color, card.color)
    } else {
        colors
    };
    let second_card = Card::new(
        second_card_shape,
        second_card_quantity,
        second_card_fill,
        second_card_color,
    );
    let third_card = Card::new(
        third_card_shape,
        third_card_quantity,
        third_card_fill,
        third_card_color,
    );
    [card, second_card, third_card]
}

/// The coins of the four attributes, where not all of them say "same"; when all do,
/// the attribute drawn as `differing` (0 shape, 1 quantity, 2 fill, 3 or more color)
/// says "different" instead, so that the three cards differ.
pub fn coins_for_different_cards(
    same_shape: bool,
    same_quantity: bool,
    same_fill: bool,
    same_color: bool,
    differing: usize,
) -> (coins: (bool, bool, bool, bool))
    ensures
        !(same_shape && same_quantity && same_fill && same_color) ==> coins == (
            same_shape,
            same_quantity,
            same_fill,
            same_color,
        ),
        (same_shape && same_quantity && same_fill && same_color) ==> coins == (
            differing != 0,
            differing != 1,
            differing != 2,
            differing < 3,
        ),
{
    if same_shape && same_quantity && same_fill && same_color {
        (differing != 0, differing != 1, differing != 2, differing < 3)
    } else {
        (same_shape, same_quantity, same_fill, same_color)
    }
}

/// Randomly generates a Set of cards containing the provided `card`.
///
/// For each attribute a coin decides whether the three cards share it; when every coin
/// says "same", one attribute drawn at random differs after all
/// ([`coins_for_different_cards`]), so that the three cards are different cards of the
/// deck. Where the cards differ in an attribute, the two other cards take the two other
/// values in a random order (drawn only for those attributes, in the order shape,
/// quantity, fill, color). The set is then [`set_from_draws`] of these.
pub fn generate_set_with_card(rng: &mut Pcg32, card: Card) -> (set: [Card; 3])
    ensures
        set[0] == card,
        is_set_array(set),
        set[0] != set[1] && set[1] != set[2] && set[0] != set[2],
{
    // Decide how the next two cards in the same set should be chosen
    let same_shape = flip_coin(rng);
    let same_quantity = flip_coin(rng);
    let same_fill = flip_coin(rng);
    let same_color = flip_coin(rng);
    let (same_shape, same_quantity, same_fill, same_color) = if same_shape && same_quantity
        && same_fill && same_color {
        // Three copies of one card are no Set of the deck: one attribute differs.
        let differing = roll_index(rng, 4);
        coins_for_different_cards(same_shape, same_quantity, same_fill, same_color, differing)
    } else {
        (same_shape, same_quantity, same_fill, same_color)
    };
    // For each aspect, the cards have to either be all the same or all different in that given aspect.
    let shapes = if same_shape {
        (card.shape, card.shape)
    } else {
        Shape::sample_std_uniform_excluding(rng, card.shape)
    };
    let quantities = if same_quantity {
        (card.quantity, card.quantity)
    } else {
        Quantity::sample_std_uniform_excluding(rng, card.quantity)
    };
    let fills = if same_fill {
        (card.fill, card.fill)
    } else {
        Fill::sample_std_uniform_excluding(rng, card.fill)
    };
    let colors = if same_color {
        (card.color, card.color)
    } else {
        Color::sample_std_uniform_excluding(rng, card.color)
    };
    set_from_draws(
        card,
        same_shape,
        same_quantity,
        same_fill,
        same_color,
        shapes,
        quantities,
        fills,
        colors,
    )
}

/// Randomly generates a Set of cards: a random card, then a Set containing it.
pub fn generate_set(rng: &mut Pcg32) -> (set: [Card; 3])
    ensures
        is_set_array(set),
        set[0] != set[1] && set[1] != set[2] && set[0] != set[2],
{
    // The first card is randomly generated.
    let card = Card::random(rng);

    generate_set_with_card(rng, card)
}

/// Whether `card` is among `cards`.
fn contains_card(cards: &Vec<Card>, card: Card) -> (found: bool)
    ensures
        found == cards@.contains(card),
{
    let mut i: usize = 0;
    while i < cards.len()
        invariant
            i <= cards.len(),
            forall|k: int| 0 <= k < i ==> cards@[k] != card,
        decreases cards.len() - i,
    {
        if cards[i] == card {
            return true;
        }
        i = i + 1;
    }
    false
}

/// Whether `set` is among `sets`.
pub(crate) fn contains_set(sets: &Vec<[Card; 3]>, set: &[Card; 3]) -> (found: bool)
    ensures
        found == sets@.contains(*set),
{
    let mut i: usize = 0;
    while i < sets.len()
        invariant
            i <= sets.len(),
            forall|k: int| 0 <= k < i ==> sets@[k] != *set,
        decreases sets.len() - i,
    {
        if same_set(&sets[i], set) {
            return true;
        }
        i = i + 1;
    }
    false
}

/// Appends each card of `set` that `cards` does not hold yet.
fn add_missing_cards(cards: &mut Vec<Card>, set: &[Card; 3])
    ensures
        old(cards)@.len() <= final(cards)@.len() <= old(cards)@.len() + 3,
        final(cards)@.contains(set[0]),
        final(cards)@.contains(set[1]),
        final(cards)@.contains(set[2]),
        forall|c: Card| old(cards)@.contains(c) ==> final(cards)@.contains(c),
        cards_distinct(old(cards)@) ==> cards_distinct(final(cards)@),
{
    let ghost start = cards@;
    let mut j: usize = 0;
    while j < 3
        invariant
            j <= 3,
            start.len() <= cards@.len() <= start.len() + j,
            forall|k: int| 0 <= k < j ==> cards@.contains(#[trigger] set[k]),
            forall|c: Card| start.contains(c) ==> cards@.contains(c),
            cards_distinct(start) ==> cards_distinct(cards@),
        decreases 3 - j,
    {
        let card = set[j];
        if !contains_card(cards, card) {
            cards.push(card);
        }
        j = j + 1;
    }
}

/// A pair of cards in ascending order, with the card that completes them to a Set.
pub open spec fn is_almost_set(entry: ([Card; 2], Card)) -> bool {
    &&& entry.0[0].rank() <= entry.0[1].rank()
    &&& is_set(entry.0[0], entry.0[1], entry.1)
}

/// The two cards in ascending order (`a` first when it sorts strictly before `b`),
/// with the card that completes them to a Set.
pub open spec fn almost_entry(a: Card, b: Card) -> ([Card; 2], Card) {
    let pair = if a.rank() < b.rank() {
        [a, b]
    } else {
        [b, a]
    };
    (pair, completion(pair[0], pair[1]))
}

/// Every entry is a sorted pair of dealt cards with the card that completes it.
pub open spec fn almost_ok(cards: Seq<Card>, almost: Seq<([Card; 2], Card)>) -> bool {
    forall|k: int|
        0 <= k < almost.len() ==> {
            &&& is_almost_set(#[trigger] almost[k])
            &&& cards.contains(almost[k].0[0])
            &&& cards.contains(almost[k].0[1])
        }
}

/// The two cards in ascending order, with the card that completes them to a Set.
fn almost_set(a: Card, b: Card) -> (entry: ([Card; 2], Card))
    ensures
        entry == almost_entry(a, b),
        is_almost_set(entry),
        (entry.0[0] == a && entry.0[1] == b) || (entry.0[0] == b && entry.0[1] == a),
{
    let pair = if a.is_before(&b) {
        [a, b]
    } else {
        [b, a]
    };
    let third = find_card_completing_set(pair[0], pair[1]);
    proof {
        lemma_rank_identifies_card(a, b);
        assert(pair =~= almost_entry(a, b).0);
    }
    (pair, third)
}

/// Every pair of a card of `first` with a card of `second`, taken in the order
/// `first[0]` with each card of `second`, then `first[1]`, then `first[2]`.
fn almost_complete_sets(first: &[Card; 3], second: &[Card; 3]) -> (almost: Vec<([Card; 2], Card)>)
    ensures
        almost@.len() == 9,
        forall|k: int|
            0 <= k < almost@.len() ==> #[trigger] almost@[k] == almost_entry(first[k / 3], second[k % 3]),
        forall|k: int| 0 <= k < almost@.len() ==> is_almost_set(#[trigger] almost@[k]),
{
    let mut almost: Vec<([Card; 2], Card)> = Vec::new();
    let mut i: usize = 0;
    while i < 3
        invariant
            i <= 3,
            almost@.len() == 3 * i,
            forall|k: int|
                0 <= k < almost@.len() ==> #[trigger] almost@[k] == almost_entry(first[k / 3], second[k % 3]),
            forall|k: int| 0 <= k < almost@.len() ==> is_almost_set(#[trigger] almost@[k]),
        decreases 3 - i,
    {
        let mut j: usize = 0;
        while j < 3
            invariant
                i < 3,
                j <= 3,
                almost@.len() == 3 * i + j,
                forall|k: int|
                    0 <= k < almost@.len() ==> #[trigger] almost@[k] == almost_entry(first[k / 3], second[k % 3]),
                forall|k: int| 0 <= k < almost@.len() ==> is_almost_set(#[trigger] almost@[k]),
            decreases 3 - j,
        {
            assert((3 * i + j) / 3 == i && (3 * i + j) % 3 == j) by (nonlinear_arith)
                requires
                    j < 3,
            ;
            almost.push(almost_set(first[i], second[j]));
            j = j + 1;
        }
        i = i + 1;
    }
    almost
}

/// The positions (ascending) and pairs of the first `n` entries of `almost` that `card`
/// completes.
pub open spec fn entries_upto(almost: Seq<([Card; 2], Card)>, card: Card, n: nat) -> Seq<
    (usize, [Card; 2]),
>
    decreases n,
{
    if n == 0 {
        Seq::empty()
    } else {
        let prev = entries_upto(almost, card, (n - 1) as nat);
        if almost[n - 1].1 == card {
            prev.push(((n - 1) as usize, almost[n - 1].0))
        } else {
            prev
        }
    }
}

/// The positions (ascending) and pairs of the entries of `almost` that `card` completes.
pub open spec fn entries_completed(almost: Seq<([Card; 2], Card)>, card: Card) -> Seq<
    (usize, [Card; 2]),
> {
    entries_upto(almost, card, almost.len())
}

/// The positions (ascending) and pairs of the entries of `almost` that `card` completes.
fn entries_completed_by(almost: &Vec<([Card; 2], Card)>, card: Card) -> (entries: Vec<
    (usize, [Card; 2]),
>)
    ensures
        entries@ == entries_completed(almost@, card),
        forall|k: int|
            0 <= k < entries@.len() ==> {
                &&& (#[trigger] entries@[k]).0 + (entries@.len() - k) <= almost@.len()
                &&& almost@[entries@[k].0 as int].1 == card
                &&& almost@[entries@[k].0 as int].0 == entries@[k].1
            },
        forall|k: int, l: int|
            0 <= k < l < entries@.len() ==> (#[trigger] entries@[k]).0 < (#[trigger] entries@[l]).0,
        forall|i: int|
            0 <= i < almost@.len() && (#[trigger] almost@[i]).1 == card ==> exists|k: int|
                0 <= k < entries@.len() && #[trigger] entries@[k].0 == i,
{
    let mut entries: Vec<(usize, [Card; 2])> = Vec::new();
    let mut i: usize = 0;
    while i < almost.len()
        invariant
            i <= almost@.len(),
            entries@ == entries_upto(almost@, card, i as nat),
            forall|k: int|
                0 <= k < entries@.len() ==> {
                    &&& (#[trigger] entries@[k]).0 + (entries@.len() - k) <= i
                    &&& almost@[entries@[k].0 as int].1 == card
                    &&& almost@[entries@[k].0 as int].0 == entries@[k].1
                },
            forall|k: int, l: int|
                0 <= k < l < entries@.len() ==> (#[trigger] entries@[k]).0 < (#[trigger] entries@[l]).0,
            forall|j: int|
                0 <= j < i && (#[trigger] almost@[j]).1 == card ==> exists|k: int|
                    0 <= k < entries@.len() && #[trigger] entries@[k].0 == j,
        decreases almost@.len() - i,
    {
        let ghost before = entries@;
        let entry = almost[i];
        if entry.1 == card {
            entries.push((i, entry.0));
        }
        assert forall|j: int|
            0 <= j < i + 1 && (#[trigger] almost@[j]).1 == card implies exists|k: int|
                0 <= k < entries@.len() && #[trigger] entries@[k].0 == j by {
            if j == i {
                assert(entries@[entries@.len() - 1].0 == i);
            } else {
                let k = choose|k: int| 0 <= k < before.len() && #[trigger] before[k].0 == j;
                assert(entries@[k] == before[k]);
            }
        }
        i = i + 1;
    }
    entries
}

/// Whether `card` is one of the three cards of `set`.
fn set_holds(set: &[Card; 3], card: Card) -> (held: bool)
    ensures
        held == (set[0] == card || set[1] == card || set[2] == card),
{
    set[0] == card || set[1] == card || set[2] == card
}

/// The three cards in ascending order.
pub open spec fn sorted_set_of(a: Card, b: Card, c: Card) -> [Card; 3] {
    choose|s: [Card; 3]| is_sorted_array(s) && same_cards(s@, seq![a, b, c])
}

/// For each entry in turn, the sorted Set of its pair and `card`, kept where neither
/// `sets` nor the sets kept before hold it yet.
pub open spec fn sets_completed_new(
    entries: Seq<(usize, [Card; 2])>,
    card: Card,
    sets: Seq<[Card; 3]>,
) -> Seq<[Card; 3]>
    decreases entries.len(),
{
    if entries.len() == 0 {
        Seq::empty()
    } else {
        let prev = sets_completed_new(entries.drop_last(), card, sets);
        let set = sorted_set_of(entries.last().1[0], entries.last().1[1], card);
        if sets.contains(set) || prev.contains(set) {
            prev
        } else {
            prev.push(set)
        }
    }
}

/// For each entry, the Set of its pair and `card`, sorted; of those, the ones that
/// neither `sets` nor an earlier entry gives.
fn sets_newly_completed(
    entries: &Vec<(usize, [Card; 2])>,
    card: Card,
    sets: &Vec<[Card; 3]>,
    Ghost(pool): Ghost<Seq<Card>>,
) -> (new_sets: Vec<[Card; 3]>)
    requires
        forall|k: int|
            0 <= k < entries@.len() ==> {
                &&& is_set((#[trigger] entries@[k]).1[0], entries@[k].1[1], card)
                &&& pool.contains(entries@[k].1[0])
                &&& pool.contains(entries@[k].1[1])
            },
    ensures
        new_sets@ == sets_completed_new(entries@, card, sets@),
        new_sets@.len() <= entries@.len(),
        sets_distinct(new_sets@),
        forall|k: int|
            0 <= k < new_sets@.len() ==> {
                &&& !sets@.contains(#[trigger] new_sets@[k])
                &&& is_set_array(new_sets@[k])
                &&& is_sorted_array(new_sets@[k])
                &&& forall|m: int|
                    0 <= m < 3 ==> pool.contains(#[trigger] new_sets@[k][m]) || new_sets@[k][m]
                        == card
                &&& !pool.contains(card) ==> {
                    &&& new_sets@[k][0] != new_sets@[k][1]
                    &&& new_sets@[k][1] != new_sets@[k][2]
                    &&& new_sets@[k][0] != new_sets@[k][2]
                }
            },
{
    let mut new_sets: Vec<[Card; 3]> = Vec::new();
    let mut i: usize = 0;
    while i < entries.len()
        invariant
            i <= entries@.len(),
            new_sets@.len() <= i,
            forall|k: int|
                0 <= k < entries@.len() ==> {
                    &&& is_set((#[trigger] entries@[k]).1[0], entries@[k].1[1], card)
                    &&& pool.contains(entries@[k].1[0])
                    &&& pool.contains(entries@[k].1[1])
                },
            sets_distinct(new_sets@),
            forall|k: int|
                0 <= k < new_sets@.len() ==> {
                    &&& !sets@.contains(#[trigger] new_sets@[k])
                    &&& is_set_array(new_sets@[k])
                    &&& is_sorted_array(new_sets@[k])
                    &&& forall|m: int|
                        0 <= m < 3 ==> pool.contains(#[trigger] new_sets@[k][m])
                            || new_sets@[k][m] == card
                    &&& !pool.contains(card) ==> {
                        &&& new_sets@[k][0] != new_sets@[k][1]
                        &&& new_sets@[k][1] != new_sets@[k][2]
                        &&& new_sets@[k][0] != new_sets@[k][2]
                    }
                },
            new_sets@ == sets_completed_new(entries@.take(i as int), card, sets@),
        decreases entries@.len() - i,
    {
        let pair = entries[i].1;
        let triple = [pair[0], pair[1], card];
        let set = sort_set(triple);
        proof {
            assert(entries@[i as int].1 == pair);
            assert(triple@ =~= seq![pair[0], pair[1], card]);
            let chosen = sorted_set_of(pair[0], pair[1], card);
            assert(is_sorted_array(chosen) && same_cards(chosen@, seq![pair[0], pair[1], card]));
            lemma_sorted_set_unique(chosen, set);
            lemma_same_cards_members(set, pair[0], pair[1], card);
            if !pool.contains(card) {
                assert(pair[0] != card && pair[1] != card);
                lemma_completing_card_repeats_or_differs(pair[0], pair[1], card);
                lemma_same_cards_distinct(set, pair[0], pair[1], card);
            }
            assert(entries@.take(i + 1).drop_last() =~= entries@.take(i as int));
            assert(entries@.take(i + 1).last() == entries@[i as int]);
        }
        if !contains_set(sets, &set) && !contains_set(&new_sets, &set) {
            new_sets.push(set);
        }
        i = i + 1;
    }
    assert(entries@.take(entries@.len() as int) =~= entries@);
    new_sets
}

/// `almost` without the entry at `index`: the last entry takes its place.
pub open spec fn swap_removed<T>(s: Seq<T>, index: int) -> Seq<T> {
    s.update(index, s.last()).drop_last()
}

/// `almost` with the entries at the given positions removed as `swap_remove` does,
/// from the last position to the first.
pub open spec fn entries_removed(
    almost: Seq<([Card; 2], Card)>,
    entries: Seq<(usize, [Card; 2])>,
) -> Seq<([Card; 2], Card)>
    decreases entries.len(),
{
    if entries.len() == 0 {
        almost
    } else {
        entries_removed(swap_removed(almost, entries.last().0 as int), entries.drop_last())
    }
}

/// Removes the entries at the given positions (ascending) by `swap_remove`, from the
/// last position to the first.
fn remove_entries(almost: &mut Vec<([Card; 2], Card)>, entries: &Vec<(usize, [Card; 2])>)
    requires
        forall|k: int|
            0 <= k < entries@.len() ==> (#[trigger] entries@[k]).0 + (entries@.len() - k)
                <= old(almost)@.len(),
    ensures
        final(almost)@ == entries_removed(old(almost)@, entries@),
        final(almost)@.len() == old(almost)@.len() - entries@.len(),
        forall|k: int| 0 <= k < final(almost)@.len() ==> old(almost)@.contains(#[trigger] final(almost)@[k]),
{
    let ghost start = almost@;
    let mut t: usize = entries.len();
    assert(entries@.take(t as int) =~= entries@);
    while t > 0
        invariant
            t <= entries@.len(),
            almost@.len() == start.len() - (entries@.len() - t),
            forall|k: int|
                0 <= k < entries@.len() ==> (#[trigger] entries@[k]).0 + (entries@.len() - k) <= start.len(),
            entries_removed(almost@, entries@.take(t as int)) == entries_removed(start, entries@),
            forall|k: int| 0 <= k < almost@.len() ==> start.contains(#[trigger] almost@[k]),
        decreases t,
    {
        let ghost before = almost@;
        t = t - 1;
        let index = entries[t].0;
        almost.swap_remove(index);
        proof {
            assert(almost@ =~= swap_removed(before, index as int));
            assert(entries@.take(t + 1).drop_last() =~= entries@.take(t as int));
            assert(entries@.take(t + 1).last() == entries@[t as int]);
            assert forall|k: int| 0 <= k < almost@.len() implies start.contains(#[trigger] almost@[k]) by {
                if k == index {
                    assert(almost@[k] == before[before.len() - 1]);
                } else {
                    assert(almost@[k] == before[k]);
                }
            }
        }
    }
    assert(entries@.take(0) =~= Seq::<(usize, [Card; 2])>::empty());
}

/// `card` is one of the three cards of some set of `sets`.
pub open spec fn in_some_set(sets: Seq<[Card; 3]>, card: Card) -> bool {
    exists|i: int|
        0 <= i < sets.len() && (#[trigger] sets[i][0] == card || sets[i][1] == card || sets[i][2]
            == card)
}

/// The cards of `cards` that are in none of the `sets`, in their order.
fn cards_outside_sets(cards: &Vec<Card>, sets: &Vec<[Card; 3]>) -> (outside: Vec<Card>)
    ensures
        outside@ == outside_sets(cards@, sets@),
        forall|k: int| 0 <= k < outside@.len() ==> cards@.contains(#[trigger] outside@[k]),
{
    let ghost pred = |c: Card| !in_some_set(sets@, c);
    let mut outside: Vec<Card> = Vec::new();
    let mut i: usize = 0;
    while i < cards.len()
        invariant
            i <= cards@.len(),
            pred == (|c: Card| !in_some_set(sets@, c)),
            outside@ == cards@.take(i as int).filter(pred),
            forall|k: int| 0 <= k < outside@.len() ==> cards@.contains(#[trigger] outside@[k]),
        decreases cards@.len() - i,
    {
        let card = cards[i];
        let mut in_a_set = false;
        let mut j: usize = 0;
        while j < sets.len()
            invariant
                j <= sets@.len(),
                in_a_set == exists|k: int|
                    0 <= k < j && (#[trigger] sets@[k][0] == card || sets@[k][1] == card
                        || sets@[k][2] == card),
            decreases sets@.len() - j,
        {
            if set_holds(&sets[j], card) {
                in_a_set = true;
            }
            j = j + 1;
        }
        proof {
            reveal_with_fuel(Seq::<_>::filter, 1);
            assert(cards@.take(i + 1).drop_last() =~= cards@.take(i as int));
            assert(cards@.take(i + 1).last() == card);
            assert(in_a_set == in_some_set(sets@, card));
        }
        if !in_a_set {
            outside.push(card);
        }
        i = i + 1;
    }
    assert(cards@.take(cards@.len() as int) =~= cards@);
    outside
}

/// The completing cards of all entries, in their order.
fn completing_cards(almost: &Vec<([Card; 2], Card)>) -> (cards: Vec<Card>)
    ensures
        cards@.len() == almost@.len(),
        forall|k: int| 0 <= k < cards@.len() ==> cards@[k] == (#[trigger] almost@[k]).1,
{
    let mut cards: Vec<Card> = Vec::new();
    let mut i: usize = 0;
    while i < almost.len()
        invariant
            i <= almost@.len(),
            cards@.len() == i,
            forall|k: int| 0 <= k < cards@.len() ==> cards@[k] == (#[trigger] almost@[k]).1,
        decreases almost@.len() - i,
    {
        cards.push(almost[i].1);
        i = i + 1;
    }
    cards
}

/// A Set of three different cards in strictly ascending order.
pub open spec fn is_strict_set(set: [Card; 3]) -> bool {
    &&& is_set_array(set)
    &&& set[0].rank() < set[1].rank()
    &&& set[1].rank() < set[2].rank()
}

/// What a deal in progress keeps: each card dealt once, each set taken once, and each
/// set a Set of three different dealt cards in ascending order.
pub open spec fn deal_ok(cards: Seq<Card>, sets: Seq<[Card; 3]>) -> bool {
    &&& cards_distinct(cards)
    &&& sets_distinct(sets)
    &&& forall|k: int| 0 <= k < sets.len() ==> #[trigger] is_strict_dealt_set(cards, sets[k])
}

/// Sets of dealt cards stay so for any sequence that holds at least the same cards.
proof fn lemma_strict_sets_more_cards(cards: Seq<Card>, more: Seq<Card>, sets: Seq<[Card; 3]>)
    requires
        forall|k: int| 0 <= k < sets.len() ==> #[trigger] is_strict_dealt_set(cards, sets[k]),
        forall|c: Card| cards.contains(c) ==> more.contains(c),
    ensures
        forall|k: int| 0 <= k < sets.len() ==> #[trigger] is_strict_dealt_set(more, sets[k]),
{
    assert forall|k: int| 0 <= k < sets.len() implies #[trigger] is_strict_dealt_set(more, sets[k]) by {
        assert(is_strict_dealt_set(cards, sets[k]));
    }
}

/// Three different cards in ascending order are in strictly ascending order.
proof fn lemma_sorted_distinct_is_strict(set: [Card; 3])
    requires
        is_sorted_array(set),
        set[0] != set[1],
        set[1] != set[2],
    ensures
        set[0].rank() < set[1].rank(),
        set[1].rank() < set[2].rank(),
{
    lemma_rank_identifies_card(set[0], set[1]);
    lemma_rank_identifies_card(set[1], set[2]);
}

/// The sorted cards of a set are the set's cards: each card of the set is among them,
/// and where the set holds three different cards, they are in strictly ascending order.
proof fn lemma_sorted_set_cards(set: [Card; 3], sorted: [Card; 3])
    requires
        is_sorted_array(sorted),
        same_cards(sorted@, set@),
    ensures
        forall|i: int| 0 <= i < 3 ==> #[trigger] set_has(sorted, set[i]),
        set[0] != set[1] && set[1] != set[2] && set[0] != set[2] ==> {
            &&& sorted[0].rank() < sorted[1].rank()
            &&& sorted[1].rank() < sorted[2].rank()
        },
{
    assert(set@ =~= seq![set[0], set[1], set[2]]);
    assert(sorted@ =~= seq![sorted[0], sorted[1], sorted[2]]);
    lemma_same_cards_members(set, sorted[0], sorted[1], sorted[2]);
    if set[0] != set[1] && set[1] != set[2] && set[0] != set[2] {
        lemma_same_cards_distinct(sorted, set[0], set[1], set[2]);
        lemma_sorted_distinct_is_strict(sorted);
    }
}

/// The card at `i` completes a Set with two other cards that come before it.
pub open spec fn completes_earlier(cards: Seq<Card>, i: int) -> bool {
    exists|a: int, b: int|
        0 <= a < i && 0 <= b < i && a != b && #[trigger] is_set(cards[a], cards[b], cards[i])
}

/// Dealing one more card leaves the earlier cards' Sets with the cards before them.
proof fn lemma_completes_earlier_push(cards: Seq<Card>, card: Card, i: int)
    requires
        0 <= i < cards.len(),
        completes_earlier(cards, i),
    ensures
        completes_earlier(cards.push(card), i),
{
    let (a, b) = choose|a: int, b: int|
        0 <= a < i && 0 <= b < i && a != b && #[trigger] is_set(cards[a], cards[b], cards[i]);
    let more = cards.push(card);
    assert(is_set(more[a], more[b], more[i]));
}

/// The second Set of a deal, by the coin `through_first`: where it is up, a Set
/// through the card of `first` at an index drawn at random, else a random Set; its
/// cards in ascending order.
pub fn draw_second_set(rng: &mut Pcg32, first: &[Card; 3], through_first: bool) -> (second: [Card; 3])
    ensures
        is_strict_set(second),
        through_first ==> set_has(second, first[0]) || set_has(second, first[1]) || set_has(
            second,
            first[2],
        ),
{
    let drawn = if through_first {
        // generate the second set with one of the cards from the first set.
        let index = roll_index(rng, 3);
        let set = generate_set_with_card(rng, first[index]);
        assert(set[0] == first[index as int]);
        set
    } else {
        // generate the second set without considering any of the cards from the first set.
        generate_set(rng)
    };
    let second = sort_set(drawn);
    proof {
        lemma_sorted_set_cards(drawn, second);
        assert(set_has(second, drawn[0]));
    }
    second
}

/// Draws a first Set, then Sets until one differs from the first, each by
/// [`draw_second_set`] with a coin flipped for it. `None` once `u64::MAX` draws have all
/// given the first Set again.
fn deal_two_sets(rng: &mut Pcg32) -> (two: Option<([Card; 3], [Card; 3])>)
    ensures
        two matches Some((first, second)) ==> {
            &&& is_strict_set(first)
            &&& is_strict_set(second)
            &&& first != second
        },
{
    let drawn = generate_set(rng);
    let first_set = sort_set(drawn);
    proof {
        lemma_sorted_set_cards(drawn, first_set);
    }
    let mut second_set = first_set;
    let mut budget: u64 = u64::MAX;
    while same_set(&second_set, &first_set)
        invariant
            is_strict_set(first_set),
            is_strict_set(second_set),
        decreases budget,
    {
        if budget == 0 {
            return None;
        }
        budget = budget - 1;
        let through_first = flip_coin(rng);
        second_set = draw_second_set(rng, &first_set, through_first);
    }
    Some((first_set, second_set))
}

/// The pairs of `card` with each of `others`, as entries, in the order of `others`.
pub open spec fn entries_with(card: Card, others: Seq<Card>) -> Seq<([Card; 2], Card)> {
    others.map_values(|other: Card| almost_entry(card, other))
}

/// The dealt cards that are in none of the sets, in their order.
pub open spec fn outside_sets(cards: Seq<Card>, sets: Seq<[Card; 3]>) -> Seq<Card> {
    cards.filter(|c: Card| !in_some_set(sets, c))
}

/// What one round that takes the entry at `index` does: its completing card is the
/// new card, and the new sets are the sorted Sets that the new card completes with the
/// pairs of the entries it completes, where `sets` does not hold them yet. Where the
/// new card is dealt already, or the new sets would make more than six sets, nothing
/// changes and the round is not accepted. Otherwise the new card is dealt, the new sets
/// are added, the entries the new card completes are removed (by `swap_remove`, last
/// first), and the pairs of the new card with each dealt card that is in no set are
/// added.
pub open spec fn dealt_round(
    cards: Seq<Card>,
    sets: Seq<[Card; 3]>,
    almost: Seq<([Card; 2], Card)>,
    index: int,
    cards_after: Seq<Card>,
    sets_after: Seq<[Card; 3]>,
    almost_after: Seq<([Card; 2], Card)>,
    accepted: bool,
) -> bool {
    let new_card = almost[index].1;
    let entries = entries_completed(almost, new_card);
    let new_sets = sets_completed_new(entries, new_card, sets);
    &&& accepted == (!cards.contains(new_card) && sets.len() + new_sets.len() <= 6)
    &&& !accepted ==> {
        &&& cards_after == cards
        &&& sets_after == sets
        &&& almost_after == almost
    }
    &&& accepted ==> {
        &&& cards_after == cards.push(new_card)
        &&& sets_after == sets + new_sets
        &&& almost_after == entries_removed(almost, entries) + entries_with(
            new_card,
            outside_sets(cards, sets),
        )
    }
}

/// Every entry among the first `n` that `card` completes is listed, with its pair.
proof fn lemma_entries_upto_complete(almost: Seq<([Card; 2], Card)>, card: Card, n: nat, i: int)
    requires
        0 <= i < n <= almost.len(),
        almost[i].1 == card,
    ensures
        entries_upto(almost, card, n).contains((i as usize, almost[i].0)),
    decreases n,
{
    let prev = entries_upto(almost, card, (n - 1) as nat);
    if i == n - 1 {
        let listed = entries_upto(almost, card, n);
        assert(listed == prev.push(((n - 1) as usize, almost[n - 1].0)));
        assert(listed[listed.len() - 1] == (i as usize, almost[i].0));
    } else {
        lemma_entries_upto_complete(almost, card, (n - 1) as nat, i);
    }
}

/// Each entry's sorted Set with `card` is in `sets` already or among the new sets kept.
proof fn lemma_sets_completed_new_complete(
    entries: Seq<(usize, [Card; 2])>,
    card: Card,
    sets: Seq<[Card; 3]>,
    k: int,
)
    requires
        0 <= k < entries.len(),
    ensures
        ({
            let set = sorted_set_of(entries[k].1[0], entries[k].1[1], card);
            sets.contains(set) || sets_completed_new(entries, card, sets).contains(set)
        }),
    decreases entries.len(),
{
    let prev = sets_completed_new(entries.drop_last(), card, sets);
    if k < entries.len() - 1 {
        lemma_sets_completed_new_complete(entries.drop_last(), card, sets, k);
        assert(entries.drop_last()[k] == entries[k]);
    } else {
        let set = sorted_set_of(entries.last().1[0], entries.last().1[1], card);
        if !sets.contains(set) && !prev.contains(set) {
            let kept = sets_completed_new(entries, card, sets);
            assert(kept[kept.len() - 1] == set);
        }
    }
}

/// The three cards in ascending order hold each of the three cards.
proof fn lemma_sorted_set_of_holds(a: Card, b: Card, c: Card)
    ensures
        set_has(sorted_set_of(a, b, c), a),
        set_has(sorted_set_of(a, b, c), b),
        set_has(sorted_set_of(a, b, c), c),
{
    let arr = [a, b, c];
    assert(arr@ =~= seq![a, b, c]);
    lemma_sorted_set_exists(arr);
    let w = sorted_set(arr);
    assert(is_sorted_array(w) && same_cards(w@, seq![a, b, c]));
    let s = sorted_set_of(a, b, c);
    lemma_sorted_set_cards(arr, s);
    assert(set_has(s, arr[0]) && set_has(s, arr[1]) && set_has(s, arr[2]));
}

/// An accepted round records every Set its new card completes: for each entry of
/// `almost` that the new card completes, some set afterwards holds the entry's two
/// cards and the new card.
pub proof fn lemma_round_records_every_set(
    cards: Seq<Card>,
    sets: Seq<[Card; 3]>,
    almost: Seq<([Card; 2], Card)>,
    index: int,
    cards_after: Seq<Card>,
    sets_after: Seq<[Card; 3]>,
    almost_after: Seq<([Card; 2], Card)>,
)
    requires
        0 <= index < almost.len(),
        dealt_round(cards, sets, almost, index, cards_after, sets_after, almost_after, true),
    ensures
        forall|k: int|
            0 <= k < almost.len() && #[trigger] almost[k].1 == almost[index].1 ==> exists|m: int|
                0 <= m < sets_after.len() && set_has(#[trigger] sets_after[m], almost[k].0[0])
                    && set_has(sets_after[m], almost[k].0[1]) && set_has(sets_after[m], almost[index].1),
{
    let card = almost[index].1;
    let entries = entries_completed(almost, card);
    let new_sets = sets_completed_new(entries, card, sets);
    assert forall|k: int| 0 <= k < almost.len() && #[trigger] almost[k].1 == card implies exists|m: int|
        0 <= m < sets_after.len() && set_has(#[trigger] sets_after[m], almost[k].0[0]) && set_has(
            sets_after[m],
            almost[k].0[1],
        ) && set_has(sets_after[m], card) by {
        lemma_entries_upto_complete(almost, card, almost.len(), k);
        let e = choose|e: int| 0 <= e < entries.len() && entries[e] == (k as usize, almost[k].0);
        lemma_sets_completed_new_complete(entries, card, sets, e);
        let set = sorted_set_of(almost[k].0[0], almost[k].0[1], card);
        lemma_sorted_set_of_holds(almost[k].0[0], almost[k].0[1], card);
        assert(sets_after == sets + new_sets);
        if sets.contains(set) {
            let m = choose|m: int| 0 <= m < sets.len() && sets[m] == set;
            assert(sets_after[m] == set);
        } else {
            let m = choose|m: int| 0 <= m < new_sets.len() && new_sets[m] == set;
            assert(sets_after[sets.len() + m] == set);
        }
    }
}

/// One round in which the entry drawn at `index` is taken (see [`dealt_round`]).
/// Returns whether the round was accepted. An accepted round deals a card that
/// completes a Set with two cards dealt before it.
pub fn deal_round(
    cards: &mut Vec<Card>,
    sets: &mut Vec<[Card; 3]>,
    almost: &mut Vec<([Card; 2], Card)>,
    index: usize,
) -> (accepted: bool)
    requires
        index < old(almost)@.len(),
        old(sets)@.len() <= 6,
        deal_ok(old(cards)@, old(sets)@),
        almost_ok(old(cards)@, old(almost)@),
    ensures
        dealt_round(
            old(cards)@,
            old(sets)@,
            old(almost)@,
            index as int,
            final(cards)@,
            final(sets)@,
            final(almost)@,
            accepted,
        ),
        deal_ok(final(cards)@, final(sets)@),
        almost_ok(final(cards)@, final(almost)@),
        accepted ==> completes_earlier(final(cards)@, old(cards)@.len() as int),
{
    broadcast use vstd::seq_lib::group_filter_ensures;

    let ghost old_cards = cards@;
    let ghost old_sets = sets@;
    let ghost old_almost = almost@;
    let new_card = almost[index].1;
    if contains_card(cards, new_card) {
        // The card is dealt already: no card is dealt twice.
        return false;
    }

    // Gather the set(s) that this new_card completes.
    let entries = entries_completed_by(almost, new_card);
    proof {
        assert forall|k: int| 0 <= k < entries@.len() implies {
            &&& is_set((#[trigger] entries@[k]).1[0], entries@[k].1[1], new_card)
            &&& old_cards.contains(entries@[k].1[0])
            &&& old_cards.contains(entries@[k].1[1])
        } by {
            let e = old_almost[entries@[k].0 as int];
            assert(is_almost_set(e));
        }
    }
    let new_sets = sets_newly_completed(&entries, new_card, sets, Ghost(cards@));

    if new_sets.len() > 6 - sets.len() {
        // re-roll everything
        return false;
    }
    // Remove the sets that we just completed.
    remove_entries(almost, &entries);
    let ghost removed = almost@;
    // Add the new combinations of cards that can be made with the new card.
    let outside = cards_outside_sets(cards, sets);
    let ghost dealt = old_cards.push(new_card);
    let mut k: usize = 0;
    while k < outside.len()
        invariant
            k <= outside@.len(),
            outside@ == outside_sets(old_cards, old_sets),
            forall|j: int| 0 <= j < outside@.len() ==> old_cards.contains(#[trigger] outside@[j]),
            dealt == old_cards.push(new_card),
            almost@ == removed + entries_with(new_card, outside@.take(k as int)),
            almost_ok(dealt, almost@),
        decreases outside@.len() - k,
    {
        let entry = almost_set(new_card, outside[k]);
        proof {
            assert(old_cards.contains(outside@[k as int]));
        }
        almost.push(entry);
        proof {
            assert(outside@.take(k + 1) =~= outside@.take(k as int).push(outside@[k as int]));
            assert(entries_with(new_card, outside@.take(k + 1)) =~= entries_with(
                new_card,
                outside@.take(k as int),
            ).push(entry));
        }
        k = k + 1;
    }
    assert(outside@.take(outside@.len() as int) =~= outside@);

    // Update cards and sets with the new additions.
    cards.push(new_card);
    let mut m: usize = 0;
    while m < new_sets.len()
        invariant
            m <= new_sets@.len(),
            sets@ == old_sets + new_sets@.take(m as int),
        decreases new_sets@.len() - m,
    {
        let set = new_sets[m];
        sets.push(set);
        proof {
            assert(new_sets@.take(m + 1) =~= new_sets@.take(m as int).push(set));
        }
        m = m + 1;
    }
    assert(new_sets@.take(new_sets@.len() as int) =~= new_sets@);
    proof {
        let c = cards@;
        let s = sets@;
        assert(s =~= old_sets + new_sets@);
        // The new card is dealt once.
        assert forall|i: int, j: int| 0 <= i < j < c.len() implies c[i] != c[j] by {
            if j == c.len() - 1 {
                assert(old_cards.contains(old_cards[i]));
            }
        }
        // The sets: the old ones with one more card, and the new ones, new and strict.
        lemma_strict_sets_more_cards(old_cards, c, old_sets);
        assert forall|i: int| 0 <= i < s.len() implies #[trigger] is_strict_dealt_set(c, s[i]) by {
            if i >= old_sets.len() {
                let set = new_sets@[i - old_sets.len()];
                assert(s[i] == set);
                lemma_sorted_distinct_is_strict(set);
                assert(old_cards.contains(set[0]) || set[0] == new_card);
                assert(old_cards.contains(set[1]) || set[1] == new_card);
                assert(old_cards.contains(set[2]) || set[2] == new_card);
            } else {
                assert(is_strict_dealt_set(c, old_sets[i]));
            }
        }
        assert forall|i: int, j: int| 0 <= i < j < s.len() implies s[i] != s[j] by {
            if j >= old_sets.len() {
                if i < old_sets.len() {
                    assert(!old_sets.contains(new_sets@[j - old_sets.len()]));
                } else {
                    assert(new_sets@[i - old_sets.len()] != new_sets@[j - old_sets.len()]);
                }
            }
        }
        // The new card completes the Set of the drawn entry's pair, two earlier cards.
        let pair = old_almost[index as int].0;
        assert(is_almost_set(old_almost[index as int]));
        let a = choose|a: int| 0 <= a < old_cards.len() && old_cards[a] == pair[0];
        let b = choose|b: int| 0 <= b < old_cards.len() && old_cards[b] == pair[1];
        lemma_completing_card_repeats_or_differs(pair[0], pair[1], new_card);
        assert(is_set(c[a], c[b], c[old_cards.len() as int]));
    }
    true
}

/// One round of growing the deal, by the drawn `choice`: 0 plays [`deal_round`] with
/// the entry at `index`; any other choice changes nothing and is not accepted.
pub fn grow_round(
    cards: &mut Vec<Card>,
    sets: &mut Vec<[Card; 3]>,
    almost: &mut Vec<([Card; 2], Card)>,
    choice: i32,
    index: usize,
) -> (accepted: bool)
    requires
        choice == 0 ==> index < old(almost)@.len(),
        old(sets)@.len() <= 6,
        deal_ok(old(cards)@, old(sets)@),
        almost_ok(old(cards)@, old(almost)@),
    ensures
        choice != 0 ==> {
            &&& !accepted
            &&& final(cards)@ == old(cards)@
            &&& final(sets)@ == old(sets)@
            &&& final(almost)@ == old(almost)@
        },
        choice == 0 ==> dealt_round(
            old(cards)@,
            old(sets)@,
            old(almost)@,
            index as int,
            final(cards)@,
            final(sets)@,
            final(almost)@,
            accepted,
        ),
        deal_ok(final(cards)@, final(sets)@),
        almost_ok(final(cards)@, final(almost)@),
        accepted ==> completes_earlier(final(cards)@, old(cards)@.len() as int),
{
    match choice {
        0 => {
            // Make set(s) by accepting one of the almost complete sets
            deal_round(cards, sets, almost, index)
        },
        1 => {
            // Make a random set from choosing one of the existing cards.
            false
        },
        _ => {
            // Make a random set from the complete set of
            false
        },
    }
}

/// Adds cards and sets until there are twelve cards or six sets. Each round draws
/// one of three choices, then, for the first choice, an index into `almost`, and plays
/// [`grow_round`] with them. `false` where `almost` is empty when drawn from, or after
/// `u64::MAX` rounds. Each card added completes a Set with two cards dealt before it.
fn grow_deal(
    rng: &mut Pcg32,
    cards: &mut Vec<Card>,
    sets: &mut Vec<[Card; 3]>,
    almost: &mut Vec<([Card; 2], Card)>,
) -> (grown: bool)
    requires
        deal_ok(old(cards)@, old(sets)@),
        almost_ok(old(cards)@, old(almost)@),
        old(cards)@.len() <= 12,
        old(sets)@.len() <= 6,
    ensures
        deal_ok(final(cards)@, final(sets)@),
        almost_ok(final(cards)@, final(almost)@),
        final(cards)@.len() <= 12,
        old(sets)@.len() <= final(sets)@.len() <= 6,
        forall|i: int| 0 <= i < old(sets)@.len() ==> final(sets)@[i] == old(sets)@[i],
        old(cards)@.len() <= final(cards)@.len(),
        forall|i: int| 0 <= i < old(cards)@.len() ==> final(cards)@[i] == old(cards)@[i],
        forall|i: int|
            old(cards)@.len() <= i < final(cards)@.len() ==> completes_earlier(final(cards)@, i),
        grown == (final(cards)@.len() == 12 || final(sets)@.len() == 6),
{
    let ghost start = sets@;
    let ghost start_cards = cards@;
    let mut budget: u64 = u64::MAX;
    while cards.len() < 12 && sets.len() < 6
        invariant
            deal_ok(cards@, sets@),
            almost_ok(cards@, almost@),
            cards@.len() <= 12,
            start == old(sets)@,
            start.len() <= sets@.len() <= 6,
            forall|i: int| 0 <= i < start.len() ==> sets@[i] == start[i],
            start_cards == old(cards)@,
            start_cards.len() <= cards@.len(),
            forall|i: int| 0 <= i < start_cards.len() ==> cards@[i] == start_cards[i],
            forall|i: int| start_cards.len() <= i < cards@.len() ==> completes_earlier(cards@, i),
        decreases budget,
    {
        if budget == 0 {
            return false;
        }
        budget = budget - 1;
        let choice = roll_inclusive(rng, 2);
        let index = if choice == 0 {
            if almost.len() == 0 {
                return false;
            }
            roll_index(rng, almost.len())
        } else {
            0
        };
        let ghost before = cards@;
        let ghost sets_before = sets@;
        let accepted = grow_round(cards, sets, almost, choice, index);
        proof {
            if accepted {
                assert(cards@ == before.push(cards@.last()));
                assert forall|i: int| start_cards.len() <= i < cards@.len() implies completes_earlier(cards@, i) by {
                    if i < before.len() {
                        lemma_completes_earlier_push(before, cards@.last(), i);
                    }
                }
                assert forall|i: int| 0 <= i < start.len() implies sets@[i] == start[i] by {
                    assert(sets@[i] == sets_before[i]);
                }
            }
        }
    }
    true
}

/// Deals `card` where it is neither among `cannot_add` nor dealt already. Returns
/// whether it was dealt.
pub fn pad_step(cards: &mut Vec<Card>, cannot_add: &Vec<Card>, card: Card) -> (added: bool)
    ensures
        added == (!cannot_add@.contains(card) && !old(cards)@.contains(card)),
        final(cards)@ == if added {
            old(cards)@.push(card)
        } else {
            old(cards)@
        },
{
    if !contains_card(cannot_add, card) && !contains_card(cards, card) {
        cards.push(card);
        true
    } else {
        false
    }
}

/// Adds random cards by [`pad_step`] until there are twelve cards. `false` after
/// `u64::MAX` draws.
fn pad_deal(rng: &mut Pcg32, cards: &mut Vec<Card>, sets: &Vec<[Card; 3]>, cannot_add: &Vec<Card>) -> (padded: bool)
    requires
        deal_ok(old(cards)@, sets@),
        old(cards)@.len() <= 12,
    ensures
        deal_ok(final(cards)@, sets@),
        final(cards)@.len() <= 12,
        padded == (final(cards)@.len() == 12),
        old(cards)@.len() <= final(cards)@.len(),
        forall|i: int| 0 <= i < old(cards)@.len() ==> final(cards)@[i] == old(cards)@[i],
        forall|i: int|
            old(cards)@.len() <= i < final(cards)@.len() ==> !cannot_add@.contains(
                #[trigger] final(cards)@[i],
            ),
{
    let ghost start = cards@;
    let mut budget: u64 = u64::MAX;
    while cards.len() < 12
        invariant
            start == old(cards)@,
            deal_ok(cards@, sets@),
            cards@.len() <= 12,
            start.len() <= cards@.len(),
            forall|i: int| 0 <= i < start.len() ==> cards@[i] == start[i],
            forall|i: int| start.len() <= i < cards@.len() ==> !cannot_add@.contains(#[trigger] cards@[i]),
        decreases budget,
    {
        if budget == 0 {
            return false;
        }
        budget = budget - 1;
        let card = Card::random(rng);
        let ghost before = cards@;
        if pad_step(cards, cannot_add, card) {
            proof {
                lemma_strict_sets_more_cards(before, cards@, sets@);
                assert forall|i: int, j: int| 0 <= i < j < cards@.len() implies cards@[i] != cards@[j] by {
                    if j == before.len() {
                        assert(before.contains(before[i]));
                    }
                }
            }
        }
    }
    true
}

/// `card` is one of the three cards of `set`.
pub open spec fn set_has(set: [Card; 3], card: Card) -> bool {
    set[0] == card || set[1] == card || set[2] == card
}

/// No card occurs twice.
pub open spec fn cards_distinct(cards: Seq<Card>) -> bool {
    forall|i: int, j: int| 0 <= i < j < cards.len() ==> cards[i] != cards[j]
}

/// No set occurs twice.
pub open spec fn sets_distinct(sets: Seq<[Card; 3]>) -> bool {
    forall|k: int, l: int| 0 <= k < l < sets.len() ==> sets[k] != sets[l]
}

/// A dealt set of three different cards, in strictly ascending order.
pub open spec fn is_strict_dealt_set(cards: Seq<Card>, set: [Card; 3]) -> bool {
    &&& is_dealt_set(cards, set)
    &&& set[0].rank() < set[1].rank()
    &&& set[1].rank() < set[2].rank()
}

/// The deal as arrays, where there are twelve cards and six sets; `None` otherwise.
pub fn deal_from(cards: &Vec<Card>, sets: &Vec<[Card; 3]>) -> (dealt: Option<([Card; 12], [[Card; 3]; 6])>)
    ensures
        dealt is Some == (cards@.len() == 12 && sets@.len() == 6),
        dealt matches Some((c, s)) ==> c@ == cards@ && s@ == sets@,
{
    if cards.len() != 12 || sets.len() != 6 {
        return None;
    }
    let dealt_cards: [Card; 12] = [
        cards[0],
        cards[1],
        cards[2],
        cards[3],
        cards[4],
        cards[5],
        cards[6],
        cards[7],
        cards[8],
        cards[9],
        cards[10],
        cards[11],
    ];
    let dealt_sets: [[Card; 3]; 6] = [sets[0], sets[1], sets[2], sets[3], sets[4], sets[5]];
    assert(dealt_cards@ =~= cards@);
    assert(dealt_sets@ =~= sets@);
    Some((dealt_cards, dealt_sets))
}

/// Deals the twelve cards of a game from a fixed seed, with the six Sets among them.
///
/// Two random Sets come first ([`deal_two_sets`]); then rounds of [`grow_round`] add
/// cards that complete Sets with the dealt cards ([`grow_deal`]), and [`finish_deal`]
/// pads the deal with random cards where six Sets come before twelve cards, and
/// shuffles the cards. A deal keeps [`deal_ok`]: twelve different cards and six
/// different Sets, each of three different dealt cards in ascending order. `None` where
/// dealing draws from an empty list of almost complete sets, where it ends with other
/// than twelve cards and six sets, or where a drawing loop runs `u64::MAX` rounds.
pub fn initialize_cards() -> (dealt: Option<([Card; 12], [[Card; 3]; 6])>)
    ensures
        dealt matches Some((cards, sets)) ==> deal_ok(cards@, sets@),
{
    let seed: [u8; 16] = [22, 6, 255, 8, 110, 150, 35, 88, 140, 203, 92, 174, 244, 39, 4, 5];
    let mut rng = pcg32_from_seed(seed);
    let mut cards: Vec<Card> = Vec::new();
    let mut sets: Vec<[Card; 3]> = Vec::new();

    let (first_set, second_set) = match deal_two_sets(&mut rng) {
        Some(two) => two,
        None => {
            return None;
        },
    };
    sets.push(first_set);
    cards.push(first_set[0]);
    cards.push(first_set[1]);
    cards.push(first_set[2]);
    assert(cards_distinct(cards@));
    sets.push(second_set);
    add_missing_cards(&mut cards, &second_set);
    assert(is_strict_dealt_set(cards@, sets@[0]) && is_strict_dealt_set(cards@, sets@[1]));
    assert(deal_ok(cards@, sets@));

    let mut almost = almost_complete_sets(&first_set, &second_set);

    if !grow_deal(&mut rng, &mut cards, &mut sets, &mut almost) {
        return None;
    }

    finish_deal(&mut rng, cards, &sets, &almost)
}

/// Finishes a grown deal. Where six sets came before twelve cards, random cards pad
/// the deal ([`pad_deal`]), cards that complete none of the entries of `almost`;
/// otherwise no card is added. The cards are then shuffled, and make a deal where there
/// are twelve of them and six sets ([`deal_from`]).
pub fn finish_deal(
    rng: &mut Pcg32,
    cards: Vec<Card>,
    sets: &Vec<[Card; 3]>,
    almost: &Vec<([Card; 2], Card)>,
) -> (dealt: Option<([Card; 12], [[Card; 3]; 6])>)
    requires
        deal_ok(cards@, sets@),
        cards@.len() <= 12,
    ensures
        cards@.len() == 12 && sets@.len() == 6 ==> dealt is Some,
        sets@.len() != 6 ==> dealt is None,
        dealt matches Some((c, s)) ==> {
            &&& deal_ok(c@, s@)
            &&& s@ == sets@
            &&& cards@.len() == 12 ==> c@.to_multiset() == cards@.to_multiset()
            &&& forall|x: Card| cards@.contains(x) ==> #[trigger] c@.contains(x)
            &&& forall|x: Card|
                #[trigger] c@.contains(x) && !cards@.contains(x) ==> forall|k: int|
                    0 <= k < almost@.len() ==> almost@[k].1 != x
        },
{
    let ghost start = cards@;
    let mut cards = cards;
    if sets.len() == 6 && cards.len() < 12 {
        // Have to pad with new cards that are:
        // - Not duplicates
        // - Won't complete any set inadvertently
        let cannot_add = completing_cards(almost);
        if !pad_deal(rng, &mut cards, sets, &cannot_add) {
            return None;
        }
        proof {
            assert forall|x: Card| cards@.contains(x) && !start.contains(x) implies forall|k: int|
                0 <= k < almost@.len() ==> almost@[k].1 != x by {
                let i = choose|i: int| 0 <= i < cards@.len() && cards@[i] == x;
                if i < start.len() {
                    assert(start[i] == x);
                }
                assert forall|k: int| 0 <= k < almost@.len() implies almost@[k].1 != x by {
                    assert(cannot_add@[k] == almost@[k].1);
                }
            }
            assert forall|x: Card| start.contains(x) implies cards@.contains(x) by {
                let i = choose|i: int| 0 <= i < start.len() && start[i] == x;
                assert(cards@[i] == x);
            }
        }
    }
    let ghost padded = cards@;
    shuffle_cards(rng, &mut cards);
    proof {
        assert forall|x: Card| #[trigger] cards@.contains(x) == padded.contains(x) by {
            assert(cards@.to_multiset().count(x) == padded.to_multiset().count(x));
        }
        // The shuffled cards are the same different cards, so the sets stay dealt sets.
        assert(padded.no_duplicates());
        padded.lemma_multiset_has_no_duplicates();
        cards@.lemma_multiset_has_no_duplicates_conv();
        assert(cards@.len() == padded.len()) by {
            assert(cards@.to_multiset().len() == padded.to_multiset().len());
        }
        lemma_strict_sets_more_cards(padded, cards@, sets@);
    }
    deal_from(&cards, sets)
}

} // verus!
