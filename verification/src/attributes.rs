//! The four attributes of a card, each with three values.

use crate::random::roll_inclusive;
use rand_pcg::Pcg32;
use vstd::prelude::*;

verus! {

/// Three values of one attribute fit in a Set when they are all the same or all different.
pub open spec fn all_same_or_all_different(a: int, b: int, c: int) -> bool {
    (a == b && b == c) || (a != b && b != c && a != c)
}

/// The ordinal that a draw from `0..=2` selects: 0 and 1 select themselves,
/// anything else the last value.
pub open spec fn roll_ordinal(roll: i32) -> int {
    if roll == 0 {
        0
    } else if roll == 1 {
        1
    } else {
        2
    }
}

/// Whether three values fit in a Set does not depend on their order.
pub proof fn lemma_all_same_or_all_different_order_free(a: int, b: int, c: int)
    ensures
        all_same_or_all_different(a, b, c) == all_same_or_all_different(b, a, c),
        all_same_or_all_different(a, b, c) == all_same_or_all_different(a, c, b),
{
}

/// Among three possible values, two values have exactly one third value that completes them:
/// the same value when the two are equal, the remaining value when they differ.
pub proof fn lemma_completion_unique(a: int, b: int, c: int, d: int)
    requires
        0 <= a < 3,
        0 <= b < 3,
        0 <= c < 3,
        0 <= d < 3,
        all_same_or_all_different(a, b, c),
        all_same_or_all_different(a, b, d),
    ensures
        c == d,
{
}

/// One of the four dimensions that a Set card can vary in.
///
/// Describes the shape that is on the card.
#[derive(Clone, Copy, Debug, PartialEq, Eq, Structural, PartialOrd, Ord, Hash)]
pub enum Shape {
    Diamond,
    Oval,
    Squiggle,
}

impl Shape {
    /// Position of the value in declaration order (the order of the derived `Ord`).
    pub open spec fn ordinal(self) -> int {
        match self {
            Shape::Diamond => 0,
            Shape::Oval => 1,
            Shape::Squiggle => 2,
        }
    }

    /// The shape selected by a draw from `0..=2`.
    pub fn from_roll(roll: i32) -> (shape: Shape)
        ensures
            shape.ordinal() == roll_ordinal(roll),
    {
        match roll {
            0 => Shape::Diamond,
            1 => Shape::Oval,
            _ => Shape::Squiggle,
        }
    }

    /// A shape drawn uniformly at random.
    pub fn random(rng: &mut Pcg32) -> Shape {
        Shape::from_roll(roll_inclusive(rng, 2))
    }

    /// The two shapes other than `exclude`, in ascending order when `roll` is 0
    /// and in descending order otherwise.
    pub fn pair_excluding(exclude: Shape, roll: i32) -> (pair: (Shape, Shape))
        ensures
            pair.0 != exclude,
            pair.1 != exclude,
            pair.0 != pair.1,
            (pair.0.ordinal() < pair.1.ordinal()) == (roll == 0),
    {
        let shapes = match exclude {
            Shape::Diamond => (Shape::Oval, Shape::Squiggle),
            Shape::Oval => (Shape::Diamond, Shape::Squiggle),
            Shape::Squiggle => (Shape::Diamond, Shape::Oval),
        };
        match roll {
            0 => (shapes.0, shapes.1),
            _ => (shapes.1, shapes.0),
        }
    }

    /// Returns one of the two shapes that is not the provided `exclude` shape
    /// with the standard uniform distribution.
    pub fn sample_std_uniform_excluding(rng: &mut Pcg32, exclude: Shape) -> (pair: (Shape, Shape))
        ensures
            pair.0 != exclude,
            pair.1 != exclude,
            pair.0 != pair.1,
    {
        Shape::pair_excluding(exclude, roll_inclusive(rng, 1))
    }

    /// Returns the third shape that would complete the set given `self` and the `other` shape.
    /// If self and other are the same shape, the returned shape is the same shape.
    /// If self and other are two different shapes, the returned shape is the other third shape.
    pub fn get_third_to_complete_set(&self, other: Shape) -> (third: Shape)
        ensures
            all_same_or_all_different(self.ordinal(), other.ordinal(), third.ordinal()),
    {
        match (self, other) {
            (Shape::Diamond, Shape::Oval) | (Shape::Oval, Shape::Diamond) => Shape::Squiggle,
            (Shape::Oval, Shape::Squiggle) | (Shape::Squiggle, Shape::Oval) => Shape::Diamond,
            (Shape::Diamond, Shape::Squiggle) | (Shape::Squiggle, Shape::Diamond) => Shape::Oval,
            // The shapes are the same, so just return the other.
            _ => other,
        }
    }
}

/// One of the four dimensions that a Set card can vary in.
///
/// Describes the number of shapes that are on the card.
#[derive(Clone, Copy, Debug, PartialEq, Eq, Structural, PartialOrd, Ord, Hash)]
pub enum Quantity {
    One,
    Two,
    Three,
}

impl Quantity {
    /// Position of the value in declaration order (the order of the derived `Ord`).
    pub open spec fn ordinal(self) -> int {
        match self {
            Quantity::One => 0,
            Quantity::Two => 1,
            Quantity::Three => 2,
        }
    }

    /// The quantity selected by a draw from `0..=2`.
    pub fn from_roll(roll: i32) -> (quantity: Quantity)
        ensures
            quantity.ordinal() == roll_ordinal(roll),
    {
        match roll {
            0 => Quantity::One,
            1 => Quantity::Two,
            _ => Quantity::Three,
        }
    }

    /// A quantity drawn uniformly at random.
    pub fn random(rng: &mut Pcg32) -> Quantity {
        Quantity::from_roll(roll_inclusive(rng, 2))
    }

    /// The two quantities other than `exclude`, in ascending order when `roll` is 0
    /// and in descending order otherwise.
    pub fn pair_excluding(exclude: Quantity, roll: i32) -> (pair: (Quantity, Quantity))
        ensures
            pair.0 != exclude,
            pair.1 != exclude,
            pair.0 != pair.1,
            (pair.0.ordinal() < pair.1.ordinal()) == (roll == 0),
    {
        let quantities = match exclude {
            Quantity::One => (Quantity::Two, Quantity::Three),
            Quantity::Two => (Quantity::One, Quantity::Three),
            Quantity::Three => (Quantity::One, Quantity::Two),
        };
        match roll {
            0 => (quantities.0, quantities.1),
            _ => (quantities.1, quantities.0),
        }
    }

    /// Returns one of the two quantities that is not the provided `exclude` quantity
    /// with the standard uniform distribution.
    pub fn sample_std_uniform_excluding(rng: &mut Pcg32, exclude: Quantity) -> (pair: (Quantity, Quantity))
        ensures
            pair.0 != exclude,
            pair.1 != exclude,
            pair.0 != pair.1,
    {
        Quantity::pair_excluding(exclude, roll_inclusive(rng, 1))
    }

    /// Returns the third quantity that would complete the set given `self` and the `other` quantity.
    /// If self and other are the same quantity, the returned quantity is the same quantity.
    /// If self and other are two different quantities, the returned quantity is the other third quantity.
    pub fn get_third_to_complete_set(&self, other: Quantity) -> (third: Quantity)
        ensures
            all_same_or_all_different(self.ordinal(), other.ordinal(), third.ordinal()),
    {
        match (self, other) {
            (Quantity::One, Quantity::Two) | (Quantity::Two, Quantity::One) => Quantity::Three,
            (Quantity::Two, Quantity::Three) | (Quantity::Three, Quantity::Two) => Quantity::One,
            (Quantity::One, Quantity::Three) | (Quantity::Three, Quantity::One) => Quantity::Two,
            // The quantities are the same, so just return the other.
            _ => other,
        }
    }
}

/// One of the four dimensions that a Set card can vary in.
///
/// Describes the inside of the shape(s) that are on the card.
#[derive(Clone, Copy, Debug, PartialEq, Eq, Structural, PartialOrd, Ord, Hash)]
pub enum Fill {
    Empty,
    Dashed,
    Filled,
}

impl Fill {
    /// Position of the value in declaration order (the order of the derived `Ord`).
    pub open spec fn ordinal(self) -> int {
        match self {
            Fill::Empty => 0,
            Fill::Dashed => 1,
            Fill::Filled => 2,
        }
    }

    /// The fill selected by a draw from `0..=2`.
    pub fn from_roll(roll: i32) -> (fill: Fill)
        ensures
            fill.ordinal() == roll_ordinal(roll),
    {
        match roll {
            0 => Fill::Empty,
            1 => Fill::Dashed,
            _ => Fill::Filled,
        }
    }

    /// A fill drawn uniformly at random.
    pub fn random(rng: &mut Pcg32) -> Fill {
        Fill::from_roll(roll_inclusive(rng, 2))
    }

    /// The two fills other than `exclude`, in ascending order when `roll` is 0
    /// and in descending order otherwise.
    pub fn pair_excluding(exclude: Fill, roll: i32) -> (pair: (Fill, Fill))
        ensures
            pair.0 != exclude,
            pair.1 != exclude,
            pair.0 != pair.1,
            (pair.0.ordinal() < pair.1.ordinal()) == (roll == 0),
    {
        let fills = match exclude {
            Fill::Empty => (Fill::Dashed, Fill::Filled),
            Fill::Dashed => (Fill::Empty, Fill::Filled),
            Fill::Filled => (Fill::Empty, Fill::Dashed),
        };
        match roll {
            0 => (fills.0, fills.1),
            _ => (fills.1, fills.0),
        }
    }

    /// Returns one of the two fills that is not the provided `exclude` fill
    /// with the standard uniform distribution.
    pub fn sample_std_uniform_excluding(rng: &mut Pcg32, exclude: Fill) -> (pair: (Fill, Fill))
        ensures
            pair.0 != exclude,
            pair.1 != exclude,
            pair.0 != pair.1,
    {
        Fill::pair_excluding(exclude, roll_inclusive(rng, 1))
    }

    /// Returns the third fill that would complete the set given `self` and the `other` fill.
    /// If self and other are the same fill, the returned fill is the same fill.
    /// If self and other are two different fills, the returned fill is the other third fill.
    pub fn get_third_to_complete_set(&self, other: Fill) -> (third: Fill)
        ensures
            all_same_or_all_different(self.ordinal(), other.ordinal(), third.ordinal()),
    {
        match (self, other) {
            (Fill::Empty, Fill::Dashed) | (Fill::Dashed, Fill::Empty) => Fill::Filled,
            (Fill::Dashed, Fill::Filled) | (Fill::Filled, Fill::Dashed) => Fill::Empty,
            (Fill::Empty, Fill::Filled) | (Fill::Filled, Fill::Empty) => Fill::Dashed,
            // The fills are the same, so just return the other.
            _ => other,
        }
    }
}

/// One of the four dimensions that a Set card can vary in.
///
/// Describes the color of the shape(s) that are on the card.
#[derive(Clone, Copy, Debug, PartialEq, Eq, Structural, PartialOrd, Ord, Hash)]
pub enum Color {
    Blue,
    Gold,
    Pink,
}

impl Color {
    /// Position of the value in declaration order (the order of the derived `Ord`).
    pub open spec fn ordinal(self) -> int {
        match self {
            Color::Blue => 0,
            Color::Gold => 1,
            Color::Pink => 2,
        }
    }

    /// The color selected by a draw from `0..=2`.
    pub fn from_roll(roll: i32) -> (color: Color)
        ensures
            color.ordinal() == roll_ordinal(roll),
    {
        match roll {
            0 => Color::Blue,
            1 => Color::Gold,
            _ => Color::Pink,
        }
    }

    /// A color drawn uniformly at random.
    pub fn random(rng: &mut Pcg32) -> Color {
        Color::from_roll(roll_inclusive(rng, 2))
    }

    /// The two colors other than `exclude`, in ascending order when `roll` is 0
    /// and in descending order otherwise.
    pub fn pair_excluding(exclude: Color, roll: i32) -> (pair: (Color, Color))
        ensures
            pair.0 != exclude,
            pair.1 != exclude,
            pair.0 != pair.1,
            (pair.0.ordinal() < pair.1.ordinal()) == (roll == 0),
    {
        let colors = match exclude {
            Color::Blue => (Color::Gold, Color::Pink),
            Color::Gold => (Color::Blue, Color::Pink),
            Color::Pink => (Color::Blue, Color::Gold),
        };
        match roll {
            0 => (colors.0, colors.1),
            _ => (colors.1, colors.0),
        }
    }

    /// Returns one of the two colors that is not the provided `exclude` color
    /// with the standard uniform distribution.
    pub fn sample_std_uniform_excluding(rng: &mut Pcg32, exclude: Color) -> (pair: (Color, Color))
        ensures
            pair.0 != exclude,
            pair.1 != exclude,
            pair.0 != pair.1,
    {
        Color::pair_excluding(exclude, roll_inclusive(rng, 1))
    }

    /// Returns the third color that would complete the set given `self` and the `other` color.
    /// If self and other are the same color, the returned color is the same color.
    /// If self and other are two different colors, the returned color is the other third color.
    pub fn get_third_to_complete_set(&self, other: Color) -> (third: Color)
        ensures
            all_same_or_all_different(self.ordinal(), other.ordinal(), third.ordinal()),
    {
        match (self, other) {
            (Color::Blue, Color::Gold) | (Color::Gold, Color::Blue) => Color::Pink,
            (Color::Gold, Color::Pink) | (Color::Pink, Color::Gold) => Color::Blue,
            (Color::Blue, Color::Pink) | (Color::Pink, Color::Blue) => Color::Gold,
            // The colors are the same, so just return the other.
            _ => other,
        }
    }
}

} // verus!
