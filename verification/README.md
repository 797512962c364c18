# set_game

The logic of a small game of Set, verified with Verus.

- `src/attributes.rs`: the four attributes of a card (shape, quantity, fill, color)
  and the value that completes two values to a Set.
- `src/card.rs`: cards, the Set rule over three cards, the card that completes two
  cards, and the order in which cards sort.
- `src/deal.rs`: dealing twelve cards and six Sets from a seeded generator.
- `src/game.rs`: the game state, selecting cards, checking a selected guess against
  the Sets found so far, and the image path of a card.
- `src/random.rs`: the generator (`rand_pcg::Pcg32`) and the calls into `rand`.
- `app/`: the bevy application around the library.
