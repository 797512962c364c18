use set_game::attributes::{Color, Fill, Quantity, Shape};
use set_game::card::Card;
use set_game::deal::initialize_cards;
use set_game::game::{card_to_asset_path, game_from_deal, initialize_game_state, GameState};

fn state() -> GameState {
    let card = Card::new(Shape::Diamond, Quantity::One, Fill::Empty, Color::Blue);
    GameState { cards: [card; 12], current_guess: vec![], found_sets: vec![] }
}

#[test]
fn toggling_selects_in_order() {
    let mut s = state();
    assert!(s.toggle_guess(5));
    assert!(s.toggle_guess(3));
    assert!(!s.has_full_guess());
    assert!(s.toggle_guess(9));
    assert_eq!(s.current_guess, vec![3, 5, 9]);
    assert!(s.has_full_guess());
    assert!(!s.toggle_guess(5));
    assert_eq!(s.current_guess, vec![3, 9]);
}

#[test]
fn toggling_twice_restores_selection() {
    let mut s = state();
    s.toggle_guess(4);
    s.toggle_guess(8);
    let before = s.current_guess.clone();
    for e in [1, 4, 6, 8, 10] {
        s.toggle_guess(e);
        s.toggle_guess(e);
        assert_eq!(s.current_guess, before);
    }
}

#[test]
fn asset_path_names_every_attribute() {
    let card = Card::new(Shape::Diamond, Quantity::One, Fill::Empty, Color::Blue);
    assert_eq!(card_to_asset_path(&card), "card/diamond/diamond_1_E_oiblue.png");
    let card = Card::new(Shape::Squiggle, Quantity::Three, Fill::Dashed, Color::Pink);
    assert_eq!(card_to_asset_path(&card), "card/squiggle/squiggle_3_D_oipink.png");
    let card = Card::new(Shape::Oval, Quantity::Two, Fill::Filled, Color::Gold);
    assert_eq!(card_to_asset_path(&card), "card/oval/oval_2_F_oigold.png");
}

#[test]
fn a_full_selection_takes_no_fourth_card() {
    let mut s = state();
    s.toggle_guess(1);
    s.toggle_guess(2);
    s.toggle_guess(3);
    assert!(!s.toggle_guess(4));
    assert_eq!(s.current_guess, vec![1, 2, 3]);
    assert!(!s.toggle_guess(2));
    assert_eq!(s.current_guess, vec![1, 3]);
    assert!(s.toggle_guess(4));
    assert_eq!(s.current_guess, vec![1, 3, 4]);
}

#[test]
fn game_starts_from_the_deal() {
    let card = Card::new(Shape::Oval, Quantity::Two, Fill::Dashed, Color::Gold);
    let other = Card::new(Shape::Diamond, Quantity::One, Fill::Empty, Color::Blue);
    let mut cards = [card; 12];
    cards[5] = other;
    let state = game_from_deal(Some((cards, [[card; 3]; 6]))).unwrap();
    assert_eq!(state.cards, cards);
    assert!(state.current_guess.is_empty());
    assert!(state.found_sets.is_empty());
    assert!(game_from_deal(None).is_none());
    let started = initialize_game_state().unwrap();
    assert_eq!(started.cards, initialize_cards().unwrap().0);
    assert!(started.current_guess.is_empty());
    assert!(started.found_sets.is_empty());
}

fn full_selection() -> GameState {
    let mut s = state();
    s.toggle_guess(1);
    s.toggle_guess(2);
    s.toggle_guess(3);
    s
}

#[test]
fn a_new_set_scores_once() {
    let a = Card::new(Shape::Squiggle, Quantity::Two, Fill::Dashed, Color::Gold);
    let b = Card::new(Shape::Diamond, Quantity::One, Fill::Empty, Color::Blue);
    let c = Card::new(Shape::Oval, Quantity::Three, Fill::Filled, Color::Pink);
    let mut s = full_selection();
    assert!(s.check_guess([a, b, c]));
    assert!(s.current_guess.is_empty());
    assert_eq!(s.found_sets, vec![[b, c, a]]);
    s.toggle_guess(7);
    s.toggle_guess(8);
    s.toggle_guess(9);
    assert!(!s.check_guess([c, a, b]));
    assert!(s.current_guess.is_empty());
    assert_eq!(s.found_sets, vec![[b, c, a]]);
}

#[test]
fn a_guess_that_is_no_set_scores_nothing() {
    let a = Card::new(Shape::Squiggle, Quantity::Two, Fill::Dashed, Color::Gold);
    let b = Card::new(Shape::Diamond, Quantity::One, Fill::Empty, Color::Blue);
    let c = Card::new(Shape::Oval, Quantity::Three, Fill::Filled, Color::Blue);
    let mut s = full_selection();
    assert!(!s.check_guess([a, b, c]));
    assert!(s.current_guess.is_empty());
    assert!(s.found_sets.is_empty());
}

#[test]
fn found_sets_count_each_set() {
    let b = Card::new(Shape::Diamond, Quantity::One, Fill::Empty, Color::Blue);
    let c = Card::new(Shape::Oval, Quantity::Three, Fill::Filled, Color::Pink);
    let a = Card::new(Shape::Squiggle, Quantity::Two, Fill::Dashed, Color::Gold);
    let d = Card::new(Shape::Diamond, Quantity::Two, Fill::Empty, Color::Blue);
    let e = Card::new(Shape::Diamond, Quantity::Three, Fill::Empty, Color::Blue);
    let mut s = full_selection();
    assert!(s.check_guess([a, b, c]));
    let mut s2 = full_selection();
    s2.found_sets = s.found_sets.clone();
    assert!(s2.check_guess([e, d, b]));
    assert_eq!(s2.found_sets.len(), 2);
    assert_eq!(s2.found_sets[1], [b, d, e]);
}
