# poker_core

A verified library for no-limit hold'em hands: cards, hands and boards, a
game engine that records and replays every action of a hand, pre flop range
tables with their text syntax, range configurations (what a player does after
given previous actions), and the stored forms of games.

The library is written in Verus. Each public function states in `requires` /
`ensures` what it does, over spec functions and views of its types, and Verus
proves the bodies against those contracts.

## Layout

- `src/` — the library.
  - `card.rs`, `hand.rs`, `bitset.rs`: cards, two-card hands and their index,
    bit sets.
  - `game.rs`: amounts, thousandths of a big blind, boards and actions.
  - `play.rs`: the game engine (`Game`): setting up a hand, posting, betting,
    dealing, showdown stacks, stepping back and forth through the recorded
    actions, and the stored form (`GameData`).
  - `game_builder.rs`, `position.rs`: building a table and naming positions.
  - `range.rs`, `range_table.rs`: pre flop range tables and their parsers.
  - `range_config.rs`: range configurations, checked by playing their actions.
  - `deck.rs`: drawing and shuffling cards (through `rand`).
  - `db.rs`, `xml_parser.rs`, `ai.rs`, `card_selector.rs`, `history_viewer.rs`:
    smaller parts around stored hands and the user interface logic.
- `tests/` — tests run against the compiled library.
- `app/` — a command-line tool that reads and writes range configurations as
  JSON.
