# battleship-solver

A probability-based Battleship solver. For each move it considers every way the
remaining fleet could be arranged given what has been revealed so far, and counts
for each unknown cell how often a ship lands there. The cell with the highest
count is the recommended shot; its count divided by the number of configurations
is the confidence.

The engine is verified with Verus. `src/` is the library, `tests/` runs it, and
`app/` is an egui window around it.

| Module | What it holds |
|--------|---------------|
| `geometry`, `board` | Cells, neighbours, placements, the gap rule |
| `fleet`, `search` | Arrangements of a fleet, and their exact enumeration |
| `sampling` | Monte-Carlo estimates |
| `solver` | The choice between the two, and the recommended shot |
| `order`, `layout` | Ships on a board, by hand or at random |
| `evidence` | What is known of the cells; runs of hits |
| `config`, `text`, `status`, `panel` | Text in and out, and what a front-end shows |
| `game`, `setup`, `play` | A game: its invariant, and every action on it |
| `laws`, `determined`, `fair` | What holds of heatmaps and of whole games |
| `outside` | The calls into `rand` and `rayon`, with what is relied on |

Main results:

- The exact engine counts each arrangement that is consistent with the evidence
  once and counts nothing else.
- Every Monte-Carlo sample is a consistent arrangement, and a run is fixed by its
  input and the number of batches.
- A heatmap depends on the board, the evidence and the remaining ships in any
  order.
- Probabilities lie between zero and one, and a cell of which something is known
  is never recommended.
- Play on a known board begins only with the whole fleet on it, and from then on
  the evidence tells the truth about that board.
- On evidence that tells the truth about a board, however the heatmap was
  computed, there is a shot to recommend while ships remain. So the solver sinks
  every ship of a known board, in no more shots than the board has cells.

Probabilities are kept as integer counts; dividing them is left to the front-end.
