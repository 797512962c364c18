use rand::{RngExt, SeedableRng};
use rand_pcg::Pcg32;
use set_game::attributes::{Color, Fill, Quantity, Shape};
use set_game::card::Card;
use set_game::card::{find_card_completing_set, sort_set};
use set_game::deal::{
    deal_from, deal_round, draw_second_set, finish_deal, generate_set,
    generate_set_with_card, grow_round, initialize_cards, pad_step, set_from_draws,
};

fn fits<T: PartialEq>(a: T, b: T, c: T) -> bool {
    (a == b && b == c) || (a != b && b != c && a != c)
}

fn is_set(set: [Card; 3]) -> bool {
    let [a, b, c] = set;
    fits(a.shape, b.shape, c.shape)
        && fits(a.quantity, b.quantity, c.quantity)
        && fits(a.fill, b.fill, c.fill)
        && fits(a.color, b.color, c.color)
}

#[test]
fn generated_sets_are_sets() {
    for seed in 0..40u8 {
        let mut rng = Pcg32::from_seed([seed; 16]);
        let set = generate_set(&mut rng);
        assert!(is_set(set));
    }
}

#[test]
fn generated_set_starts_with_the_card() {
    let card = Card::new(Shape::Oval, Quantity::Two, Fill::Filled, Color::Gold);
    for seed in 0..40u8 {
        let mut rng = Pcg32::from_seed([seed; 16]);
        let set = generate_set_with_card(&mut rng, card);
        assert_eq!(set[0], card);
        assert!(is_set(set));
    }
}

#[test]
fn dealing_is_deterministic() {
    assert_eq!(initialize_cards(), initialize_cards());
}

fn all_cards() -> Vec<Card> {
    let mut cards = Vec::new();
    for s in [Shape::Diamond, Shape::Oval, Shape::Squiggle] {
        for q in [Quantity::One, Quantity::Two, Quantity::Three] {
            for f in [Fill::Empty, Fill::Dashed, Fill::Filled] {
                for c in [Color::Blue, Color::Gold, Color::Pink] {
                    cards.push(Card::new(s, q, f, c));
                }
            }
        }
    }
    cards
}

/// All Sets among the cards, each sorted.
fn sets_among(cards: &[Card]) -> Vec<[Card; 3]> {
    let mut sets = Vec::new();
    for i in 0..cards.len() {
        for j in i + 1..cards.len() {
            for l in j + 1..cards.len() {
                let set = [cards[i], cards[j], cards[l]];
                if is_set(set) {
                    let mut sorted = set;
                    sorted.sort();
                    sets.push(sorted);
                }
            }
        }
    }
    sets
}

/// Twelve different cards holding exactly six Sets, found by a seeded search.
fn valid_deal() -> (Vec<Card>, Vec<[Card; 3]>) {
    let deck = all_cards();
    let mut rng = Pcg32::from_seed([9; 16]);
    loop {
        let mut cards: Vec<Card> = Vec::new();
        while cards.len() < 12 {
            let card = deck[rng.random_range(0..81usize)];
            if !cards.contains(&card) {
                cards.push(card);
            }
        }
        let sets = sets_among(&cards);
        if sets.len() == 6 {
            return (cards, sets);
        }
    }
}

#[test]
fn set_from_draws_follows_the_coins() {
    let card = Card::new(Shape::Diamond, Quantity::One, Fill::Empty, Color::Blue);
    let set = set_from_draws(
        card,
        true,
        false,
        true,
        false,
        (Shape::Oval, Shape::Squiggle),
        (Quantity::Three, Quantity::Two),
        (Fill::Dashed, Fill::Filled),
        (Color::Pink, Color::Gold),
    );
    assert_eq!(set[0], card);
    assert_eq!(set[1], Card::new(Shape::Diamond, Quantity::Three, Fill::Empty, Color::Pink));
    assert_eq!(set[2], Card::new(Shape::Diamond, Quantity::Two, Fill::Empty, Color::Gold));
    assert!(is_set(set));
    let same = set_from_draws(
        card,
        true,
        true,
        true,
        true,
        (Shape::Oval, Shape::Squiggle),
        (Quantity::Three, Quantity::Two),
        (Fill::Dashed, Fill::Filled),
        (Color::Pink, Color::Gold),
    );
    assert_eq!(same, [card, card, card]);
}

#[test]
fn generated_set_is_one_card_or_three_different() {
    let card = Card::new(Shape::Squiggle, Quantity::Three, Fill::Dashed, Color::Pink);
    for seed in 0..200u8 {
        let mut rng = Pcg32::from_seed([seed, 1, 2, 3, 4, 5, 6, 7, 8, 9, 10, 11, 12, 13, 14, 15]);
        let set = generate_set_with_card(&mut rng, card);
        let all_same = set[0] == set[1] && set[1] == set[2];
        let all_different = set[0] != set[1] && set[1] != set[2] && set[0] != set[2];
        assert!(all_same || all_different);
    }
}

#[test]
fn deal_from_takes_twelve_cards_and_six_sets() {
    let (cards, sets) = valid_deal();
    let dealt = deal_from(&cards, &sets).unwrap();
    assert_eq!(dealt.0.to_vec(), cards);
    assert_eq!(dealt.1.to_vec(), sets);
    assert!(deal_from(&cards, &sets[0..5].to_vec()).is_none());
    assert!(deal_from(&cards[0..11].to_vec(), &sets).is_none());
}

#[test]
fn seeded_deal_is_a_full_deal() {
    let (cards, sets) = initialize_cards().unwrap();
    for i in 0..12 {
        for j in i + 1..12 {
            assert_ne!(cards[i], cards[j]);
        }
    }
    for k in 0..6 {
        let set = sets[k];
        assert!(is_set(set));
        assert!(set[0] < set[1] && set[1] < set[2]);
        assert!(set.iter().all(|card| cards.contains(card)));
        for l in k + 1..6 {
            assert_ne!(sets[k], sets[l]);
        }
    }
}

#[test]
fn deal_round_adds_the_completing_card() {
    let a = Card::new(Shape::Diamond, Quantity::One, Fill::Empty, Color::Blue);
    let b = Card::new(Shape::Oval, Quantity::One, Fill::Empty, Color::Blue);
    let c = find_card_completing_set(a, b);
    let d = Card::new(Shape::Diamond, Quantity::Two, Fill::Empty, Color::Blue);
    let e = find_card_completing_set(a, d);
    let first = sort_set([a, b, c]);
    let second = sort_set([a, d, e]);
    let mut cards = vec![first[0], first[1], first[2]];
    for card in second {
        if !cards.contains(&card) {
            cards.push(card);
        }
    }
    let mut sets = vec![first, second];
    let mut almost = Vec::new();
    for &x in &first {
        for &y in &second {
            let pair = if x < y { [x, y] } else { [y, x] };
            almost.push((pair, find_card_completing_set(pair[0], pair[1])));
        }
    }
    // the entry of b with d: its completing card is new
    let index = almost.iter().position(|(pair, _)| pair.contains(&b) && pair.contains(&d)).unwrap();
    let new_card = almost[index].1;
    assert!(!cards.contains(&new_card));
    let old_cards = cards.clone();
    let old_len = almost.len();
    assert!(deal_round(&mut cards, &mut sets, &mut almost, index));
    let mut expected_cards = old_cards.clone();
    expected_cards.push(new_card);
    assert_eq!(cards, expected_cards);
    assert!(sets.len() >= 3);
    assert!(sets.contains(&sort_set([b, d, new_card])));
    for set in &sets[2..] {
        assert!(is_set(*set));
        assert!(set.contains(&new_card));
    }
    // the new card completes a Set with two cards dealt before it
    let n = old_cards.len();
    assert!((0..n).any(|i| (0..n).any(|j| i != j && is_set([cards[i], cards[j], cards[n]]))));
    // each card once, each set once, each set strictly ascending
    for i in 0..cards.len() {
        for j in i + 1..cards.len() {
            assert_ne!(cards[i], cards[j]);
        }
    }
    for k in 0..sets.len() {
        assert!(sets[k][0] < sets[k][1] && sets[k][1] < sets[k][2]);
        for l in k + 1..sets.len() {
            assert_ne!(sets[k], sets[l]);
        }
    }
    // entries that the new card completed are gone; no cards outside sets, so none added
    assert!(almost.iter().all(|(_, card)| *card != new_card));
    assert!(almost.len() < old_len);
}

#[test]
fn generated_set_has_three_different_cards() {
    let card = Card::new(Shape::Diamond, Quantity::Three, Fill::Filled, Color::Gold);
    for seed in 0..200u8 {
        let mut rng = Pcg32::from_seed([7, seed, 2, 3, 4, 5, 6, 7, 8, 9, 10, 11, 12, 13, 14, 15]);
        let set = generate_set_with_card(&mut rng, card);
        assert_eq!(set[0], card);
        assert!(set[0] != set[1] && set[1] != set[2] && set[0] != set[2]);
        let set = generate_set(&mut rng);
        assert!(set[0] != set[1] && set[1] != set[2] && set[0] != set[2]);
    }
}

/// Two sorted Sets through the card `a`, their cards, and the entries of their pairs.
fn two_sets_through_a() -> (Vec<Card>, Vec<[Card; 3]>, Vec<([Card; 2], Card)>, Card, Card, Card) {
    let a = Card::new(Shape::Diamond, Quantity::One, Fill::Empty, Color::Blue);
    let b = Card::new(Shape::Oval, Quantity::One, Fill::Empty, Color::Blue);
    let c = find_card_completing_set(a, b);
    let d = Card::new(Shape::Diamond, Quantity::Two, Fill::Empty, Color::Blue);
    let e = find_card_completing_set(a, d);
    let first = sort_set([a, b, c]);
    let second = sort_set([a, d, e]);
    let mut cards = vec![first[0], first[1], first[2]];
    for card in second {
        if !cards.contains(&card) {
            cards.push(card);
        }
    }
    let mut almost = Vec::new();
    for &x in &first {
        for &y in &second {
            let pair = if x < y { [x, y] } else { [y, x] };
            almost.push((pair, find_card_completing_set(pair[0], pair[1])));
        }
    }
    (cards, vec![first, second], almost, a, b, d)
}

#[test]
fn deal_round_refuses_a_dealt_card() {
    let (mut cards, mut sets, mut almost, a, _, _) = two_sets_through_a();
    // the entry of a with itself: a completes it, and a is dealt
    let index = almost.iter().position(|(pair, _)| pair[0] == a && pair[1] == a).unwrap();
    assert_eq!(almost[index].1, a);
    let (old_cards, old_sets, old_almost) = (cards.clone(), sets.clone(), almost.clone());
    assert!(!deal_round(&mut cards, &mut sets, &mut almost, index));
    assert_eq!(cards, old_cards);
    assert_eq!(sets, old_sets);
    assert_eq!(almost, old_almost);
}

#[test]
fn grow_round_acts_only_on_the_first_choice() {
    let (cards0, sets0, almost0, _, b, d) = two_sets_through_a();
    let index = almost0.iter().position(|(pair, _)| pair.contains(&b) && pair.contains(&d)).unwrap();
    for choice in [1, 2] {
        let (mut cards, mut sets, mut almost) = (cards0.clone(), sets0.clone(), almost0.clone());
        assert!(!grow_round(&mut cards, &mut sets, &mut almost, choice, index));
        assert_eq!(cards, cards0);
        assert_eq!(sets, sets0);
        assert_eq!(almost, almost0);
    }
    let (mut cards, mut sets, mut almost) = (cards0.clone(), sets0.clone(), almost0.clone());
    assert!(grow_round(&mut cards, &mut sets, &mut almost, 0, index));
    let (mut cards2, mut sets2, mut almost2) = (cards0.clone(), sets0.clone(), almost0.clone());
    assert!(deal_round(&mut cards2, &mut sets2, &mut almost2, index));
    assert_eq!((cards, sets, almost), (cards2, sets2, almost2));
}

#[test]
fn pad_step_deals_only_new_allowed_cards() {
    let a = Card::new(Shape::Diamond, Quantity::One, Fill::Empty, Color::Blue);
    let b = Card::new(Shape::Oval, Quantity::Two, Fill::Dashed, Color::Gold);
    let c = Card::new(Shape::Squiggle, Quantity::Three, Fill::Filled, Color::Pink);
    let mut cards = vec![a];
    let cannot_add = vec![b];
    assert!(!pad_step(&mut cards, &cannot_add, a));
    assert_eq!(cards, vec![a]);
    assert!(!pad_step(&mut cards, &cannot_add, b));
    assert_eq!(cards, vec![a]);
    assert!(pad_step(&mut cards, &cannot_add, c));
    assert_eq!(cards, vec![a, c]);
}

#[test]
fn second_set_goes_through_the_first_when_the_coin_says_so() {
    let first = sort_set([
        Card::new(Shape::Diamond, Quantity::One, Fill::Empty, Color::Blue),
        Card::new(Shape::Oval, Quantity::Two, Fill::Dashed, Color::Gold),
        Card::new(Shape::Squiggle, Quantity::Three, Fill::Filled, Color::Pink),
    ]);
    for seed in 0..60u8 {
        let mut rng = Pcg32::from_seed([seed; 16]);
        let second = draw_second_set(&mut rng, &first, true);
        assert!(is_set(second));
        assert!(second[0] < second[1] && second[1] < second[2]);
        assert!(first.iter().any(|card| second.contains(card)));
        let other = draw_second_set(&mut rng, &first, false);
        assert!(is_set(other));
        assert!(other[0] < other[1] && other[1] < other[2]);
    }
}

#[test]
fn finishing_a_full_deal_adds_no_card() {
    let (cards, sets) = valid_deal();
    let mut rng = Pcg32::from_seed([3; 16]);
    let (dealt_cards, dealt_sets) = finish_deal(&mut rng, cards.clone(), &sets, &Vec::new()).unwrap();
    assert_eq!(dealt_sets.to_vec(), sets);
    let mut sorted_dealt = dealt_cards.to_vec();
    sorted_dealt.sort();
    let mut sorted_cards = cards.clone();
    sorted_cards.sort();
    assert_eq!(sorted_dealt, sorted_cards);
    // too few cards and no sets: nothing is padded, and there is no deal
    let mut rng = Pcg32::from_seed([3; 16]);
    assert!(finish_deal(&mut rng, cards[0..6].to_vec(), &Vec::new(), &Vec::new()).is_none());
}
