# Mino Dice probability calculator

A verified library for the dice game Mino Dice, with the web front end and
the simulation server around it.

`src/` is the library, verified with Verus:

- `dice` — faces, die types, the bag, and the face tallies of each die;
- `trick` — who wins a trick, and how many of the `6^n` face outcomes each
  seat wins;
- `win_table` — the table of those win counts for every ordered choice of
  three to six dice, its base-7 indexing and lookup;
- `bag_draws` — exact single-trick winner weights when the opponents' dice
  are drawn from the bag;
- `bidding` — exact trick-count weights over independent tricks, expected
  scores of bids and the best bid;
- `patterns` — binomial coefficients and the unordered opponent hands left in
  the bag, with their hypergeometric weights;
- `round` — scoring, the round's rules of play, sampling hands, and simulated
  rounds and games;
- `simulation` — the server's quick round simulator on die names;
- `text` — die names, parsing them, and describing a hand;
- `controls` — the rules behind the calculator's controls.

The deterministic functions state in their contracts exactly what they
return. The library's generator keeps a record of its draws, and the
functions driven by it state what comes back in terms of those draws: which
dice each deal holds, which legal die each seat plays, which face each roll
shows, and so who leads and wins every trick and the bids and scores that
follow. Which values the generator hands out is left open. The laws that relate several functions are public proof functions
(`lemma_*`).

`app/` holds what Verus does not see: the floating-point probabilities built
from the library's exact counts, reading the stored win-count rows from
SQLite (the library checks them and builds the table), the JavaScript API,
the chart, the browser page and the HTTP server.
