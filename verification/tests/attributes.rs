use rand::SeedableRng;
use rand_pcg::Pcg32;
use set_game::attributes::{Color, Fill, Quantity, Shape};

const SHAPES: [Shape; 3] = [Shape::Diamond, Shape::Oval, Shape::Squiggle];
const QUANTITIES: [Quantity; 3] = [Quantity::One, Quantity::Two, Quantity::Three];
const FILLS: [Fill; 3] = [Fill::Empty, Fill::Dashed, Fill::Filled];
const COLORS: [Color; 3] = [Color::Blue, Color::Gold, Color::Pink];

fn fits<T: PartialEq>(a: T, b: T, c: T) -> bool {
    (a == b && b == c) || (a != b && b != c && a != c)
}

#[test]
fn third_shape_examples() {
    assert_eq!(Shape::Diamond.get_third_to_complete_set(Shape::Oval), Shape::Squiggle);
    assert_eq!(Shape::Squiggle.get_third_to_complete_set(Shape::Oval), Shape::Diamond);
    assert_eq!(Shape::Squiggle.get_third_to_complete_set(Shape::Diamond), Shape::Oval);
    assert_eq!(Shape::Oval.get_third_to_complete_set(Shape::Oval), Shape::Oval);
}

#[test]
fn third_quantity_fill_color_examples() {
    assert_eq!(Quantity::One.get_third_to_complete_set(Quantity::Three), Quantity::Two);
    assert_eq!(Quantity::Two.get_third_to_complete_set(Quantity::Two), Quantity::Two);
    assert_eq!(Fill::Dashed.get_third_to_complete_set(Fill::Filled), Fill::Empty);
    assert_eq!(Fill::Empty.get_third_to_complete_set(Fill::Empty), Fill::Empty);
    assert_eq!(Color::Gold.get_third_to_complete_set(Color::Blue), Color::Pink);
    assert_eq!(Color::Pink.get_third_to_complete_set(Color::Pink), Color::Pink);
}

#[test]
fn third_value_completes_every_pair() {
    for a in SHAPES {
        for b in SHAPES {
            let c = a.get_third_to_complete_set(b);
            assert!(fits(a, b, c));
            assert_eq!(b.get_third_to_complete_set(a), c);
            assert_eq!(a.get_third_to_complete_set(c), b);
        }
    }
    for a in QUANTITIES {
        for b in QUANTITIES {
            let c = a.get_third_to_complete_set(b);
            assert!(fits(a, b, c));
            assert_eq!(a.get_third_to_complete_set(c), b);
        }
    }
    for a in FILLS {
        for b in FILLS {
            let c = a.get_third_to_complete_set(b);
            assert!(fits(a, b, c));
            assert_eq!(a.get_third_to_complete_set(c), b);
        }
    }
    for a in COLORS {
        for b in COLORS {
            let c = a.get_third_to_complete_set(b);
            assert!(fits(a, b, c));
            assert_eq!(a.get_third_to_complete_set(c), b);
        }
    }
}

#[test]
fn from_roll_maps_draws() {
    assert_eq!(Shape::from_roll(0), Shape::Diamond);
    assert_eq!(Shape::from_roll(1), Shape::Oval);
    assert_eq!(Shape::from_roll(2), Shape::Squiggle);
    assert_eq!(Shape::from_roll(7), Shape::Squiggle);
    assert_eq!(Quantity::from_roll(1), Quantity::Two);
    assert_eq!(Fill::from_roll(2), Fill::Filled);
    assert_eq!(Color::from_roll(0), Color::Blue);
    assert_eq!(Color::from_roll(-3), Color::Pink);
}

#[test]
fn pair_excluding_orders_by_roll() {
    assert_eq!(Shape::pair_excluding(Shape::Diamond, 0), (Shape::Oval, Shape::Squiggle));
    assert_eq!(Shape::pair_excluding(Shape::Diamond, 1), (Shape::Squiggle, Shape::Oval));
    assert_eq!(Quantity::pair_excluding(Quantity::Two, 0), (Quantity::One, Quantity::Three));
    assert_eq!(Fill::pair_excluding(Fill::Filled, 1), (Fill::Dashed, Fill::Empty));
    assert_eq!(Color::pair_excluding(Color::Gold, 0), (Color::Blue, Color::Pink));
}

#[test]
fn sample_excluding_gives_the_two_other_values() {
    let mut rng = Pcg32::from_seed([7; 16]);
    for _ in 0..50 {
        for ex in SHAPES {
            let (a, b) = Shape::sample_std_uniform_excluding(&mut rng, ex);
            assert!(a != ex && b != ex && a != b);
        }
        for ex in QUANTITIES {
            let (a, b) = Quantity::sample_std_uniform_excluding(&mut rng, ex);
            assert!(a != ex && b != ex && a != b);
        }
        for ex in FILLS {
            let (a, b) = Fill::sample_std_uniform_excluding(&mut rng, ex);
            assert!(a != ex && b != ex && a != b);
        }
        for ex in COLORS {
            let (a, b) = Color::sample_std_uniform_excluding(&mut rng, ex);
            assert!(a != ex && b != ex && a != b);
        }
    }
}

#[test]
fn random_values_cover_all_values() {
    let mut rng = Pcg32::from_seed([3; 16]);
    let mut seen = [false; 3];
    for _ in 0..200 {
        match Shape::random(&mut rng) {
            Shape::Diamond => seen[0] = true,
            Shape::Oval => seen[1] = true,
            Shape::Squiggle => seen[2] = true,
        }
    }
    assert_eq!(seen, [true, true, true]);
}
