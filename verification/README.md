# bmnrs

Beggar-my-neighbour in Verus: a fast game player, a search for long games,
and a walk that takes a position back trick by trick.

- `src/cards.rs`: card characters.
- `src/seqs.rs`: reversing hands.
- `src/game.rs`, `src/game_laws.rs`: the game as a state machine, playing it
  out, recording positions with 26 cards each, and what every step keeps.
- `src/setup.rs`: dealing, reading and showing games.
- `src/untrick.rs`, `src/districk.rs`: candidate tricks of a hand, and taking
  a trick back.
- `src/unplay_spec.rs`, `src/unplay.rs`: walking a position back.
- `src/search.rs`, `src/many.rs`: the searches built on the above.
- `app/main.rs`: the program that prints what the searches find.
