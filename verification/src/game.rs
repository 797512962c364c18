//! The state of a game in progress: the dealt cards and the cards the player is selecting.

use crate::attributes::{Color, Fill, Quantity, Shape};
use crate::card::{
    forms_set, is_set_array, is_sorted_array, lemma_sorted_set_exists, lemma_sorted_set_unique, same_cards, sort_set,
    sorted_set, Card,
};
use crate::deal::{contains_set, deal_ok, initialize_cards, sets_distinct};
use vstd::prelude::*;
use vstd::string::*;

verus! {

/// The values of a sequence increase strictly from first to last.
pub open spec fn strictly_increasing(s: Seq<u64>) -> bool {
    forall|i: int, j: int| 0 <= i < j < s.len() ==> s[i] < s[j]
}

/// The most cards a selection holds.
pub open spec fn max_guess() -> nat {
    3
}

/// `after` is the selection `before` with `entity` toggled, in ascending order.
/// A full selection (three cards) that does not hold `entity` stays as it is;
/// otherwise `after` holds `entity` exactly when `before` does not, and the same
/// other identifiers, so it is one longer or one shorter.
pub open spec fn toggled(before: Seq<u64>, entity: u64, after: Seq<u64>) -> bool {
    &&& strictly_increasing(after)
    &&& if before.len() >= max_guess() && !before.contains(entity) {
        after == before
    } else {
        &&& forall|e: u64|
            #[trigger] after.contains(e) == if e == entity {
                !before.contains(entity)
            } else {
                before.contains(e)
            }
        &&& after.len() == if before.contains(entity) {
            before.len() - 1
        } else {
            before.len() + 1int
        }
    }
}

/// Two selections in ascending order that hold the same identifiers are equal.
pub proof fn lemma_sorted_selection_determined(s: Seq<u64>, t: Seq<u64>)
    requires
        strictly_increasing(s),
        strictly_increasing(t),
        forall|e: u64| #[trigger] s.contains(e) == t.contains(e),
    ensures
        s == t,
    decreases s.len(),
{
    if s.len() == 0 {
        if t.len() > 0 {
            assert(t.contains(t[0]));
            assert(s.contains(t[0]));
        }
        assert(s =~= t);
    } else {
        assert(s.contains(s[0]));
        assert(t.contains(s[0]));
        assert(t.contains(t[0]));
        assert(s.contains(t[0]));
        let ks = choose|k: int| 0 <= k < s.len() && s[k] == t[0];
        let kt = choose|k: int| 0 <= k < t.len() && t[k] == s[0];
        assert(s[0] <= s[ks]);
        assert(t[0] <= t[kt]);
        assert(s[0] == t[0]);
        let s1 = s.drop_first();
        let t1 = t.drop_first();
        assert forall|e: u64| #[trigger] s1.contains(e) == t1.contains(e) by {
            if s1.contains(e) {
                let k = choose|k: int| 0 <= k < s1.len() && s1[k] == e;
                assert(s[k + 1] == e);
                assert(s[0] < s[k + 1]);
                assert(s.contains(e));
                let j = choose|j: int| 0 <= j < t.len() && t[j] == e;
                assert(j != 0);
                assert(t1[j - 1] == e);
            }
            if t1.contains(e) {
                let k = choose|k: int| 0 <= k < t1.len() && t1[k] == e;
                assert(t[k + 1] == e);
                assert(t[0] < t[k + 1]);
                assert(t.contains(e));
                assert(s.contains(e));
                let j = choose|j: int| 0 <= j < s.len() && s[j] == e;
                assert(j != 0);
                assert(s1[j - 1] == e);
            }
        }
        lemma_sorted_selection_determined(s1, t1);
        assert(s =~= seq![s[0]] + s1);
        assert(t =~= seq![t[0]] + t1);
    }
}

/// Toggling the same card twice leaves the selection as it was.
pub proof fn lemma_toggle_twice_restores(before: Seq<u64>, middle: Seq<u64>, after: Seq<u64>, entity: u64)
    requires
        strictly_increasing(before),
        before.len() <= max_guess(),
        toggled(before, entity, middle),
        toggled(middle, entity, after),
    ensures
        after == before,
{
    if !(before.len() >= max_guess() && !before.contains(entity)) {
        assert(middle.contains(entity) == !before.contains(entity));
        assert forall|e: u64| #[trigger] after.contains(e) == before.contains(e) by {
            assert(middle.contains(e) == if e == entity {
                !before.contains(entity)
            } else {
                before.contains(e)
            });
            assert(middle.contains(entity) == !before.contains(entity));
        }
        lemma_sorted_selection_determined(after, before);
    }
}

/// A Set scores once, whatever order its cards are picked in: once a guess has scored,
/// its Set is among the found sets for every guess of the same three cards.
pub proof fn lemma_set_scores_once(found: Seq<[Card; 3]>, first: [Card; 3], again: [Card; 3])
    requires
        same_cards(first@, again@),
    ensures
        found.push(sorted_set(first)).contains(sorted_set(again)),
{
    lemma_sorted_set_exists(first);
    lemma_sorted_set_exists(again);
    lemma_sorted_set_unique(sorted_set(first), sorted_set(again));
    assert(found.push(sorted_set(first))[found.len() as int] == sorted_set(again));
}

/// Contains the current game state.
pub struct GameState {
    /// The cards the user tries to make Sets out of.
    pub cards: [Card; 12],
    /// The current guess that the user is in the process of selecting, as the
    /// identifiers (entity bits) of the selected cards, in ascending order.
    ///
    /// This vec must have max size 3. Once it has size 3, it is checked
    /// whether it is a valid set.
    pub current_guess: Vec<u64>,
    /// The Sets the user has found so far, each with its cards in ascending order.
    pub found_sets: Vec<[Card; 3]>,
}

/// Found sets as a game keeps them: each a Set with its cards in ascending order, and
/// none found twice.
pub open spec fn found_sets_ok(found: Seq<[Card; 3]>) -> bool {
    &&& sets_distinct(found)
    &&& forall|k: int|
        0 <= k < found.len() ==> is_set_array(#[trigger] found[k]) && is_sorted_array(found[k])
}

impl GameState {
    /// The selection is kept in ascending order, each card at most once, and holds
    /// at most three cards.
    pub open spec fn guess_is_sorted(&self) -> bool {
        &&& strictly_increasing(self.current_guess@)
        &&& self.current_guess@.len() <= max_guess()
    }

    /// Selects the card `entity` if it is not selected and fewer than three cards
    /// are, deselects it if it is selected, and otherwise leaves the selection as it is.
    /// Returns whether the card is selected afterwards.
    pub fn toggle_guess(&mut self, entity: u64) -> (selected: bool)
        requires
            old(self).guess_is_sorted(),
        ensures
            toggled(old(self).current_guess@, entity, final(self).current_guess@),
            final(self).guess_is_sorted(),
            final(self).cards == old(self).cards,
            final(self).found_sets@ == old(self).found_sets@,
            selected == final(self).current_guess@.contains(entity),
    {
        let ghost start = self.current_guess@;
        let mut i: usize = 0;
        while i < self.current_guess.len() && self.current_guess[i] < entity
            invariant
                self.current_guess@ == start,
                i <= start.len(),
                forall|k: int| 0 <= k < i ==> start[k] < entity,
            decreases start.len() - i,
        {
            i = i + 1;
        }
        if i < self.current_guess.len() && self.current_guess[i] == entity {
            self.current_guess.remove(i);
            proof {
                let s = self.current_guess@;
                assert(s =~= start.remove(i as int));
                assert forall|e: u64| #[trigger] s.contains(e) == (e != entity && start.contains(e)) by {
                    if s.contains(e) {
                        let k = choose|k: int| 0 <= k < s.len() && s[k] == e;
                        if k < i {
                            assert(start[k] == e);
                        } else {
                            assert(start[k + 1] == e);
                        }
                    }
                    if e != entity && start.contains(e) {
                        let k = choose|k: int| 0 <= k < start.len() && start[k] == e;
                        if k < i {
                            assert(s[k] == e);
                        } else {
                            assert(s[k - 1] == e);
                        }
                    }
                }
            }
            false
        } else {
            assert(!start.contains(entity)) by {
                if start.contains(entity) {
                    let k = choose|k: int| 0 <= k < start.len() && start[k] == entity;
                    if k < i {
                    } else {
                        assert(start[i as int] <= start[k]);
                    }
                }
            }
            if self.current_guess.len() >= 3 {
                return false;
            }
            self.current_guess.insert(i, entity);
            proof {
                let s = self.current_guess@;
                assert(s =~= start.insert(i as int, entity));
                assert forall|e: u64| #[trigger] s.contains(e) == (e == entity || start.contains(e)) by {
                    if s.contains(e) && e != entity {
                        let k = choose|k: int| 0 <= k < s.len() && s[k] == e;
                        if k < i {
                            assert(start[k] == e);
                        } else {
                            assert(start[k - 1] == e);
                        }
                    }
                    if e == entity {
                        assert(s[i as int] == e);
                    }
                    if start.contains(e) {
                        let k = choose|k: int| 0 <= k < start.len() && start[k] == e;
                        if k < i {
                            assert(s[k] == e);
                        } else {
                            assert(s[k + 1] == e);
                        }
                    }
                }
                assert(s.contains(entity));
            }
            true
        }
    }

    /// Checks a full selection whose cards are `guess`. The selection is cleared; where
    /// the three cards form a Set that was not found yet, that Set (its cards in
    /// ascending order) joins the found sets and `true` comes back.
    pub fn check_guess(&mut self, guess: [Card; 3]) -> (scored: bool)
        requires
            old(self).current_guess@.len() == 3,
        ensures
            final(self).current_guess@.len() == 0,
            final(self).cards == old(self).cards,
            scored == (is_set_array(guess) && !old(self).found_sets@.contains(sorted_set(guess))),
            final(self).found_sets@ == if scored {
                old(self).found_sets@.push(sorted_set(guess))
            } else {
                old(self).found_sets@
            },
            found_sets_ok(old(self).found_sets@) ==> found_sets_ok(final(self).found_sets@),
    {
        let sorted = sort_set(guess);
        let scored = forms_set(guess[0], guess[1], guess[2]) && !contains_set(&self.found_sets, &sorted);
        if scored {
            let ghost before = self.found_sets@;
            self.found_sets.push(sorted);
            proof {
                if sets_distinct(before) {
                    assert forall|k: int, l: int|
                        0 <= k < l < self.found_sets@.len() implies self.found_sets@[k]
                            != self.found_sets@[l] by {
                        if l == before.len() {
                            assert(before.contains(before[k]));
                        }
                    }
                }
            }
        }
        self.current_guess.clear();
        scored
    }

    /// Whether three cards are selected, so that the guess is to be checked.
    pub fn has_full_guess(&self) -> (full: bool)
        ensures
            full == (self.current_guess@.len() >= 3),
    {
        self.current_guess.len() >= 3
    }
}

/// The game state that starts from a deal: the dealt cards, and nothing selected;
/// `None` where there is no deal.
pub fn game_from_deal(dealt: Option<([Card; 12], [[Card; 3]; 6])>) -> (state: Option<GameState>)
    ensures
        match (dealt, state) {
            (Some((cards, _)), Some(state)) => state.cards == cards && state.current_guess@.len()
                == 0 && state.found_sets@.len() == 0,
            (None, None) => true,
            _ => false,
        },
{
    match dealt {
        Some((cards, _sets)) => Some(GameState { cards, current_guess: Vec::new(), found_sets: Vec::new() }),
        None => None,
    }
}

/// Initializes the game state: the dealt cards (see [`initialize_cards`]), and nothing
/// selected, by [`game_from_deal`]. `None` where dealing fails.
pub fn initialize_game_state() -> (state: Option<GameState>)
    ensures
        state matches Some(state) ==> {
            &&& state.current_guess@.len() == 0
            &&& state.found_sets@.len() == 0
            &&& exists|sets: [[Card; 3]; 6]| #[trigger] deal_ok(state.cards@, sets@)
        },
{
    let dealt = initialize_cards();
    proof {
        if let Some((cards, sets)) = dealt {
            assert(deal_ok(cards@, sets@));
        }
    }
    game_from_deal(dealt)
}

/// The name of a shape in asset paths.
pub open spec fn shape_name(shape: Shape) -> Seq<char> {
    match shape {
        Shape::Diamond => "diamond"@,
        Shape::Squiggle => "squiggle"@,
        Shape::Oval => "oval"@,
    }
}

/// The name of a quantity in asset paths.
pub open spec fn quantity_name(quantity: Quantity) -> Seq<char> {
    match quantity {
        Quantity::One => "1"@,
        Quantity::Two => "2"@,
        Quantity::Three => "3"@,
    }
}

/// The name of a fill in asset paths.
pub open spec fn fill_name(fill: Fill) -> Seq<char> {
    match fill {
        Fill::Empty => "E"@,
        Fill::Dashed => "D"@,
        Fill::Filled => "F"@,
    }
}

/// The name of a color in asset paths.
pub open spec fn color_name(color: Color) -> Seq<char> {
    match color {
        Color::Blue => "oiblue"@,
        Color::Gold => "oigold"@,
        Color::Pink => "oipink"@,
    }
}

/// The path of a card's image: `card/{shape}/{shape}_{quantity}_{fill}_{color}.png`.
pub open spec fn asset_path(card: Card) -> Seq<char> {
    "card/"@ + shape_name(card.shape) + "/"@ + shape_name(card.shape) + "_"@ + quantity_name(
        card.quantity,
    ) + "_"@ + fill_name(card.fill) + "_"@ + color_name(card.color) + ".png"@
}

/// A card's image path is made of one part per attribute, each fixed by that
/// attribute alone: `card/{shape}/{shape}_` by the shape, `{quantity}_` by the quantity,
/// `{fill}_` by the fill, and `{color}.png` by the color.
pub proof fn lemma_asset_path_parts(card: Card)
    ensures
        asset_path(card) == (match card.shape {
            Shape::Diamond => "card/diamond/diamond_"@,
            Shape::Oval => "card/oval/oval_"@,
            Shape::Squiggle => "card/squiggle/squiggle_"@,
        }) + (match card.quantity {
            Quantity::One => "1_"@,
            Quantity::Two => "2_"@,
            Quantity::Three => "3_"@,
        }) + (match card.fill {
            Fill::Empty => "E_"@,
            Fill::Dashed => "D_"@,
            Fill::Filled => "F_"@,
        }) + (match card.color {
            Color::Blue => "oiblue.png"@,
            Color::Gold => "oigold.png"@,
            Color::Pink => "oipink.png"@,
        }),
{
    reveal_strlit("card/");
    reveal_strlit("/");
    reveal_strlit("_");
    reveal_strlit(".png");
    let sn = shape_name(card.shape);
    let prefix = match card.shape {
        Shape::Diamond => "card/diamond/diamond_"@,
        Shape::Oval => "card/oval/oval_"@,
        Shape::Squiggle => "card/squiggle/squiggle_"@,
    };
    let q = match card.quantity {
        Quantity::One => "1_"@,
        Quantity::Two => "2_"@,
        Quantity::Three => "3_"@,
    };
    let f = match card.fill {
        Fill::Empty => "E_"@,
        Fill::Dashed => "D_"@,
        Fill::Filled => "F_"@,
    };
    let c = match card.color {
        Color::Blue => "oiblue.png"@,
        Color::Gold => "oigold.png"@,
        Color::Pink => "oipink.png"@,
    };
    match card.shape {
        Shape::Diamond => {
            reveal_strlit("diamond");
            reveal_strlit("card/diamond/diamond_");
        },
        Shape::Oval => {
            reveal_strlit("oval");
            reveal_strlit("card/oval/oval_");
        },
        Shape::Squiggle => {
            reveal_strlit("squiggle");
            reveal_strlit("card/squiggle/squiggle_");
        },
    }
    assert("card/"@ + sn + "/"@ + sn + "_"@ =~= prefix);
    match card.quantity {
        Quantity::One => {
            reveal_strlit("1");
            reveal_strlit("1_");
        },
        Quantity::Two => {
            reveal_strlit("2");
            reveal_strlit("2_");
        },
        Quantity::Three => {
            reveal_strlit("3");
            reveal_strlit("3_");
        },
    }
    assert(quantity_name(card.quantity) + "_"@ =~= q);
    match card.fill {
        Fill::Empty => {
            reveal_strlit("E");
            reveal_strlit("E_");
        },
        Fill::Dashed => {
            reveal_strlit("D");
            reveal_strlit("D_");
        },
        Fill::Filled => {
            reveal_strlit("F");
            reveal_strlit("F_");
        },
    }
    assert(fill_name(card.fill) + "_"@ =~= f);
    match card.color {
        Color::Blue => {
            reveal_strlit("oiblue");
            reveal_strlit("oiblue.png");
        },
        Color::Gold => {
            reveal_strlit("oigold");
            reveal_strlit("oigold.png");
        },
        Color::Pink => {
            reveal_strlit("oipink");
            reveal_strlit("oipink.png");
        },
    }
    assert(color_name(card.color) + ".png"@ =~= c);
    let qn = quantity_name(card.quantity);
    let fnm = fill_name(card.fill);
    let cn = color_name(card.color);
    let u = "_"@;
    let p = ".png"@;
    assert(asset_path(card) =~= ("card/"@ + sn + "/"@ + sn + u) + (qn + u) + (fnm + u) + (cn + p));
}

/// The path of the image that shows `card`.
pub fn card_to_asset_path(card: &Card) -> (path: String)
    ensures
        path@ == asset_path(*card),
{
    let shape = match card.shape {
        Shape::Diamond => "diamond",
        Shape::Squiggle => "squiggle",
        Shape::Oval => "oval",
    };
    let quantity = match card.quantity {
        Quantity::One => "1",
        Quantity::Two => "2",
        Quantity::Three => "3",
    };
    let fill = match card.fill {
        Fill::Empty => "E",
        Fill::Dashed => "D",
        Fill::Filled => "F",
    };
    let color = match card.color {
        Color::Blue => "oiblue",
        Color::Gold => "oigold",
        Color::Pink => "oipink",
    };
    let mut path = String::from_str("card/");
    path.append(shape);
    path.append("/");
    path.append(shape);
    path.append("_");
    path.append(quantity);
    path.append("_");
    path.append(fill);
    path.append("_");
    path.append(color);
    path.append(".png");
    path
}

} // verus!
