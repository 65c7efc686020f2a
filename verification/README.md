# morpion_solitaire

Morpion Solitaire (the 5T, 5D, 4T and 4D variants): the rules of the game,
the MSR record format, and the searches for long games, written in Verus.
Every function of the library carries a `requires`/`ensures` contract, and
Verus proves each body against it.

## Layout

- `src/game/`: the board (a bitboard), lines and the index of drawn lines,
  legal-move generation, the game state with apply, undo and redo, and the
  text formats of a game (saves, Pentasol).
- `src/record/`: the MSR record model, the initial cross, replay validation
  and the compact `MS1:` encoding.
- `src/search/`: the D4 symmetry of the board and the orbit reduction of
  moves, the exhaustive search and what it covers, beam search, the
  admissible bound used for pruning, the neural feature planes, and the NRPA
  support (playability, motifs and their mining, perturbation).
- `src/render.rs`: the record embedded in exported PNG and SVG pictures.
- `app/`: the command-line program around the library: argument handling,
  files, threads, timing, and the parts that use floating point (drawing the
  board, the NRPA policy).
- `tests/`: tests of the library on concrete games.

The contracts speak of abstract views (`GameView` for a game), and the
library states its laws as public proof functions: for example
`lemma_undo_then_redo` (undoing moves and redoing them restores the game),
`lemma_legal_against_history` (legality read off the history's lines),
`lemma_canonical_hash_invariant` (the board fingerprint is the same for all
eight images of a board) and `lemma_mined_unique` (mining has one answer).
