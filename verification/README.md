# duel_game

A turn-based duel for two to four players: each turn a counter runs round a
dial from 0 to 99 and the player stops it as close as possible to each
objective. The library holds the rules, each function with its contract:

- `mechanics` — base score table, circular difference, score formula,
  generation of the objectives (numbers, or letters with a target);
- `counter` — one tick of the counter, what a key does, the score of a
  stopped objective;
- `round` — average of a turn (rounded up), poisons, resolution of a round
  (clear win, shared lead, shared last place, draw), its settlement, the
  end of the game and the final ranking;
- `input` — reading a `1`/`2` choice and a replay answer (Unicode
  white space trimmed);
- `args`, `player` — the settings of a game and the players.

`app/` is the terminal program around it: command line (clap), raw-mode
keyboard and the counter's threads (crossterm), stdin prompts and logging.
