# gto

The building blocks of a post-flop poker solver, verified with Verus.

`src/` is the library, each function proved against its contract:

- `action`, `build_data`, `node`, `config`, `sizing`, `tree`: the action
  tree of a post-flop game, built from bet sizing rules and edited line by
  line (play, apply a history, add and remove lines, find invalid terminal
  lines), with the well-formedness that every operation keeps.
- `action_util`, `decimal`, `tree_text`: the text forms of actions, lines
  and trees.
- `text`, `numeral`, `bets`, `range`: reading bet sizes (`50%, 2x, 2e200%`)
  and hand ranges (`AKs, TT+, [0.5]99-66[/0.5]`).
- `postflop`, `isomorphism`, `game_play`: the integer side of the game tree
  over boards: node counts per street, hands clear of the board, suit
  isomorphism, cards that can still come, amounts put in.
- `slice_ops`, `latch`, `player`, `laws`: rows and swaps of slices, a value
  cell, player flags, and properties that relate several operations.

`app/` is the program around it: floating-point bet sizing and weights, the
configuration checks on fractions, the solver's float slice operations and
the commands of the user interface.

`tests/` runs the library on concrete values.
