# pkcore

A no-limit hold'em table engine whose rules are proved with Verus.

- `src/` is the verified library: chips and stacks, player states and the
  transitions between them, seats and the button, the deck and dealing,
  betting and its refusals, side pots and the showdown, the event log and
  its text, hand histories, table snapshots, and the drivers (`Dealer`,
  `PokerSession`, `TableManager`) that run hands. Every public function
  states what it answers and how it changes its arguments; laws that span
  several functions stand as public proof functions.
- `tests/` runs the library on concrete hands.
- `app/` holds what the proofs do not reach: the hand history written to
  and read from YAML files, and a table handed out as a `pkstate` hand state.

Hands are ranked by the caller: the settlement takes one `HandRank` per
seat, the lower the better.
