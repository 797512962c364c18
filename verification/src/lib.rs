//! Dealing and checking cards for a game of Set.
//!
//! A card varies in four attributes (shape, quantity, fill and color), each of
//! which takes one of three values. Three cards form a Set when, in every
//! attribute, they are all the same or all different.

pub mod attributes;
pub mod card;
pub mod deal;
pub mod game;
pub mod random;
