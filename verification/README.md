# bschess

An engine for a chess variant in which pawns teleport, knights sweep, rooks and bishops
detonate and queens take what they pass. Every pseudo-legal move is legal, and a side with
a king always has one: there is no check, no checkmate and no stalemate.

The library under `src/` is written in Verus. Its functions state what they compute, and
Verus proves that they do.

| Module | What |
|---|---|
| `bits`, `geom`, `bytes`, `text` | sets of squares, directions and distances, byte order, text |
| `types`, `tables` | squares, pieces, moves; rays, blasts, sweeps, hash keys, random numbers |
| `rules` | the game itself: what a move does, when a game ends, how it is scored |
| `position`, `fen` | the board as bitboards, making moves, reading and writing positions |
| `movegen`, `perft` | move lists, capture effects, node counts |
| `laws` | what holds of all games: who survives, what a list holds, what never grows |
| `symmetry` | the eight turns of the board and the exchange of colours |
| `eval` | the hand evaluation, exact material swings, features for fitting |
| `plan`, `search` | what a search finds, and the searcher that finds it |
| `selfplay`, `data`, `tuning` | games against itself, their records, examples to fit |
| `gauntlet` | games and matches between engines |
| `nnue` | network inputs and network files |
| `operator` | typed commands, the game so far, reports |

`rules` and `geom` say in mathematical terms what the bitboard code computes; a `Position`
is viewed as a `Game`. `plan` does the same for the search: given what the searcher
remembers and what the clock and the stop flag answer, it says which moves are looked at,
what is stored, and what comes out.

Facts that relate several functions are proof functions whose names begin with `law_`.

`app/` holds the programs around the library: reading and printing, files, threads, and the
floating point of network evaluation, Elo and weight fitting.
